//! What the work on files leaves on the disk, step by step.
use crate::storage::arrangement;
use crate::storage::lsm_laws;
use crate::storage::lsm_model;
use crate::storage::lsm_model::{DiskOpView, LsmView, Slot};
use crate::storage::manifest;
use crate::storage::reader::TableView;
use crate::storage::wal;
use crate::storage::wal::RecordView;
use vstd::prelude::*;

verus! {

/// The directory of an engine: its files by their paths, its active log, and its
/// manifest.
#[verifier::ext_equal]
pub struct DiskImage {
    pub files: Map<Seq<u8>, Seq<u8>>,
    pub log: Seq<u8>,
    pub manifest: Seq<u8>,
}

/// The disk after one step.
pub open spec fn step(d: DiskImage, op: DiskOpView) -> DiskImage {
    match op {
        DiskOpView::AppendLog(b) => DiskImage { log: d.log + b, ..d },
        DiskOpView::FreezeLog(path) => DiskImage {
            files: d.files.insert(path, d.log),
            log: Seq::empty(),
            ..d
        },
        DiskOpView::ResetLog => DiskImage { log: Seq::empty(), ..d },
        DiskOpView::WriteTable { path, file } => DiskImage {
            files: d.files.insert(path, file),
            ..d
        },
        DiskOpView::WriteManifest(b) => DiskImage { manifest: b, ..d },
        DiskOpView::Remove(path) => DiskImage { files: d.files.remove(path), ..d },
    }
}

/// The disk after steps, one after the other.
pub open spec fn after(d: DiskImage, ops: Seq<DiskOpView>) -> DiskImage
    decreases ops.len(),
{
    if ops.len() == 0 {
        d
    } else {
        step(after(d, ops.drop_last()), ops.last())
    }
}

/// The table's file is there.
pub open spec fn is_there(d: DiskImage, x: Slot) -> bool {
    d.files.contains_key(x.path) && d.files[x.path] == x.table.data
}

/// The files of all tables are there.
pub open spec fn all_there(d: DiskImage, levels: Seq<Seq<Slot>>) -> bool {
    forall|i: int, j: int|
        0 <= i < levels.len() && 0 <= j < levels[i].len() ==> is_there(
            d,
            #[trigger] levels[i][j],
        )
}

/// No table has this path.
pub open spec fn is_free(levels: Seq<Seq<Slot>>, path: Seq<u8>) -> bool {
    forall|i: int, j: int|
        0 <= i < levels.len() && 0 <= j < levels[i].len() ==> (#[trigger] levels[i][j]).path
            != path
}

/// No two tables have the same path.
pub open spec fn paths_differ(levels: Seq<Seq<Slot>>) -> bool {
    forall|i: int, j: int, a: int, b: int|
        #![trigger levels[i][j], levels[a][b]]
        0 <= i < levels.len() && 0 <= j < levels[i].len() && 0 <= a < levels.len() && 0 <= b
            < levels[a].len() && levels[i][j].path == levels[a][b].path ==> i == a && j == b
}

/// The steps that were added to those that were there before.
pub open spec fn added(s: LsmView, t: LsmView) -> Seq<DiskOpView> {
    t.pending.skip(s.pending.len() as int)
}

proof fn lemma_after_joined(d: DiskImage, a: Seq<DiskOpView>, b: Seq<DiskOpView>)
    ensures
        after(d, a + b) == after(after(d, a), b),
    decreases b.len(),
{
    if b.len() == 0 {
        assert(a + b =~= a);
    } else {
        assert((a + b).drop_last() =~= a + b.drop_last());
        lemma_after_joined(d, a, b.drop_last());
    }
}

/// A write only adds its record at the end of the log, and leaves the rest of the disk
/// as it was.
pub proof fn lemma_write_is_logged(d: DiskImage, s: LsmView, r: RecordView)
    ensures
        after(d, added(s, s.written(r))) == (DiskImage { log: d.log + wal::record_bytes(r), ..d }),
        s.written(r).pending.take(s.pending.len() as int) == s.pending,
{
    let ops = added(s, s.written(r));
    assert(ops =~= seq![DiskOpView::AppendLog(wal::record_bytes(r))]);
    assert(ops.drop_last() =~= Seq::empty());
    assert(after(d, ops.drop_last()) == d);
    assert(s.written(r).pending.take(s.pending.len() as int) =~= s.pending);
}

/// At every moment of a flush the writes that it is about are on the disk: in the log,
/// or in the frozen log, or in the table that the manifest lists. The manifest lists
/// only tables whose files are there. In the end the log is empty and the frozen log is
/// gone. The new names are free.
pub proof fn lemma_flush_is_safe(d: DiskImage, s: LsmView, t: TableView, n: int)
    requires
        s.levels.len() > 0,
        all_there(d, s.levels),
        is_free(s.levels, lsm_model::table_path(s.dir, s.next_file_id)),
        is_free(s.levels, lsm_model::frozen_path(s.dir, s.next_file_id)),
        0 <= n <= added(s, s.flushed(t)).len(),
    ensures
        s.flushed(t).pending.take(s.pending.len() as int) == s.pending,
        ({
            let e = after(d, added(s, s.flushed(t)).take(n));
            let frozen = lsm_model::frozen_path(s.dir, s.next_file_id);
            let new = s.flushed(t);
            let in_log = e.log == d.log;
            let in_frozen = e.log.len() == 0 && e.files.contains_key(frozen) && e.files[frozen]
                == d.log;
            let listed = e.manifest == manifest::manifest_bytes(
                new.next_file_id,
                lsm_model::paths_of(new.levels),
            ) && e.log.len() == 0 && all_there(e, new.levels);
            &&& in_log || in_frozen || listed
            &&& all_there(e, s.levels)
            &&& listed || e.manifest == d.manifest || e.manifest == manifest::manifest_bytes(
                new.next_file_id,
                lsm_model::paths_of(s.levels),
            )
            &&& n == added(s, new).len() ==> listed && !e.files.contains_key(frozen)
        }),
{
    let frozen = lsm_model::frozen_path(s.dir, s.next_file_id);
    let path = lsm_model::table_path(s.dir, s.next_file_id);
    let new = s.flushed(t);
    let ops = added(s, new);
    assert(s.flushed(t).pending.take(s.pending.len() as int) =~= s.pending);
    let started = LsmView { next_file_id: lsm_model::next_id(s.next_file_id), ..s };
    let m1 = manifest::manifest_bytes(new.next_file_id, lsm_model::paths_of(s.levels));
    let m2 = manifest::manifest_bytes(new.next_file_id, lsm_model::paths_of(new.levels));
    assert(ops =~= seq![
        DiskOpView::FreezeLog(frozen),
        DiskOpView::WriteManifest(m1),
        DiskOpView::WriteTable { path, file: t.data },
        DiskOpView::WriteManifest(m2),
        DiskOpView::Remove(frozen),
    ]);
    assert(path != frozen) by {
        assert(path[path.len() - 1] != frozen[frozen.len() - 1]);
    }
    let d0 = after(d, ops.take(0));
    assert(ops.take(1).drop_last() =~= ops.take(0));
    assert(ops.take(2).drop_last() =~= ops.take(1));
    assert(ops.take(3).drop_last() =~= ops.take(2));
    assert(ops.take(4).drop_last() =~= ops.take(3));
    assert(ops.take(5).drop_last() =~= ops.take(4));
    let d1 = after(d, ops.take(1));
    let d2 = after(d, ops.take(2));
    let d3 = after(d, ops.take(3));
    let d4 = after(d, ops.take(4));
    let d5 = after(d, ops.take(5));
    assert(d0 == d);
    assert(d1 == step(d0, ops[0]));
    assert(d2 == step(d1, ops[1]));
    assert(d3 == step(d2, ops[2]));
    assert(d4 == step(d3, ops[3]));
    assert(d5 == step(d4, ops[4]));
    assert forall|i: int, j: int| 0 <= i < s.levels.len() && 0 <= j < s.levels[i].len() implies {
        let x = #[trigger] s.levels[i][j];
        is_there(d1, x) && is_there(d2, x) && is_there(d3, x) && is_there(d4, x) && is_there(d5, x)
    } by {
        let x = s.levels[i][j];
        assert(is_there(d, x));
        assert(x.path != path && x.path != frozen);
    }
    let e = after(d, ops.take(n));
    assert(n == 0 || n == 1 || n == 2 || n == 3 || n == 4 || n == 5);
    assert(all_there(e, s.levels));
    if n >= 4 {
        let x = Slot { path, table: t };
        assert(is_there(e, x));
        assert forall|i: int, j: int| 0 <= i < new.levels.len() && 0 <= j
            < new.levels[i].len() implies is_there(e, #[trigger] new.levels[i][j]) by {
            if i == 0 {
                if j > 0 {
                    assert(new.levels[0][j] == s.levels[0][j - 1]);
                } else {
                    assert(new.levels[0][0] == x);
                }
            } else {
                assert(new.levels[i][j] == s.levels[i][j]);
            }
        }
    }
}

// ----------------------------------------------------------------------
// Compaction
// ----------------------------------------------------------------------
proof fn lemma_after_writing(d: DiskImage, ts: Seq<Slot>, n: int)
    requires
        0 <= n <= ts.len(),
        forall|i: int, j: int| 0 <= i < j < ts.len() ==> (#[trigger] ts[i]).path != (#[trigger] ts[j]).path,
    ensures
        ({
            let e = after(d, lsm_model::write_ops(ts).take(n));
            &&& e.log == d.log && e.manifest == d.manifest
            &&& forall|i: int| 0 <= i < n ==> is_there(e, #[trigger] ts[i])
            &&& forall|x: Slot|
                (forall|i: int| 0 <= i < ts.len() ==> (#[trigger] ts[i]).path != x.path)
                    && #[trigger] is_there(d, x) ==> is_there(e, x)
        }),
    decreases n,
{
    let ops = lsm_model::write_ops(ts);
    if n > 0 {
        lemma_after_writing(d, ts, n - 1);
        assert(ops.take(n).drop_last() =~= ops.take(n - 1));
        assert(ops.take(n).last() == ops[n - 1]);
        let b = after(d, ops.take(n - 1));
        let e = after(d, ops.take(n));
        assert(e == step(b, ops[n - 1]));
        assert forall|i: int| 0 <= i < n implies is_there(e, #[trigger] ts[i]) by {
            if i < n - 1 {
                assert(ts[i].path != ts[n - 1].path);
                assert(is_there(b, ts[i]));
            }
        }
        assert forall|x: Slot|
            (forall|i: int| 0 <= i < ts.len() ==> (#[trigger] ts[i]).path != x.path)
                && #[trigger] is_there(d, x) implies is_there(e, x) by {
            assert(ts[n - 1].path != x.path);
            assert(is_there(b, x));
        }
    }
}

proof fn lemma_after_removing(d: DiskImage, ts: Seq<Slot>, n: int)
    requires
        0 <= n <= ts.len(),
    ensures
        ({
            let e = after(d, lsm_model::remove_ops(ts).take(n));
            &&& e.log == d.log && e.manifest == d.manifest
            &&& forall|i: int| 0 <= i < n ==> !e.files.contains_key((#[trigger] ts[i]).path)
            &&& forall|x: Slot|
                (forall|i: int| 0 <= i < ts.len() ==> (#[trigger] ts[i]).path != x.path)
                    && #[trigger] is_there(d, x) ==> is_there(e, x)
        }),
    decreases n,
{
    let ops = lsm_model::remove_ops(ts);
    if n > 0 {
        lemma_after_removing(d, ts, n - 1);
        assert(ops.take(n).drop_last() =~= ops.take(n - 1));
        assert(ops.take(n).last() == ops[n - 1]);
        let b = after(d, ops.take(n - 1));
        let e = after(d, ops.take(n));
        assert(e == step(b, ops[n - 1]));
        assert forall|x: Slot|
            (forall|i: int| 0 <= i < ts.len() ==> (#[trigger] ts[i]).path != x.path)
                && #[trigger] is_there(d, x) implies is_there(e, x) by {
            assert(ts[n - 1].path != x.path);
            assert(is_there(b, x));
        }
    }
}

proof fn lemma_inserted_from(ts: Seq<Slot>, s: Slot, i: int)
    requires
        0 <= i < lsm_model::insert_by_min(ts, s).len(),
    ensures
        lsm_model::insert_by_min(ts, s)[i] == s || exists|q: int|
            0 <= q < ts.len() && ts[q] == lsm_model::insert_by_min(ts, s)[i],
    decreases ts.len(),
{
    let r = lsm_model::insert_by_min(ts, s);
    if ts.len() > 0 && r.last() == ts.last() && r != ts.push(s) {
        let front = lsm_model::insert_by_min(ts.drop_last(), s);
        if i < front.len() {
            lemma_inserted_from(ts.drop_last(), s, i);
            if front[i] != s {
                let q = choose|q: int| 0 <= q < ts.drop_last().len() && ts.drop_last()[q] == front[i];
                assert(ts[q] == r[i]);
            }
        } else {
            assert(ts[ts.len() - 1] == r[i]);
        }
    } else if i < ts.len() {
        assert(ts[i] == r[i]);
    }
}

proof fn lemma_sorted_from(ts: Seq<Slot>, i: int)
    requires
        0 <= i < lsm_model::sorted_by_min(ts).len(),
    ensures
        exists|q: int| 0 <= q < ts.len() && ts[q] == lsm_model::sorted_by_min(ts)[i],
    decreases ts.len(),
{
    if ts.len() > 0 {
        let front = ts.drop_last();
        let sorted = lsm_model::sorted_by_min(front);
        let x = lsm_model::sorted_by_min(ts)[i];
        lemma_inserted_from(sorted, ts.last(), i);
        if x == ts.last() {
            assert(ts[ts.len() - 1] == x);
        } else {
            let q = choose|q: int| 0 <= q < sorted.len() && sorted[q] == x;
            lemma_sorted_from(front, q);
            let p = choose|p: int| 0 <= p < front.len() && front[p] == sorted[q];
            assert(ts[p] == x);
        }
    }
}

proof fn lemma_compacted_from(s: LsmView, level: int, made: Seq<TableView>, i: int, j: int)
    requires
        0 <= level < 6,
        s.levels.len() == 7,
        paths_differ(s.levels),
        0 <= i < 7,
        0 <= j < s.compacted(level, made).levels[i].len(),
    ensures
        ({
            let x = s.compacted(level, made).levels[i][j];
            ||| exists|q: int|
                0 <= q < made.len() && x == lsm_model::new_slots(s.dir, s.next_file_id, made)[q]
            ||| (exists|a: int, b: int|
                0 <= a < 7 && 0 <= b < s.levels[a].len() && x == #[trigger] s.levels[a][b])
                && forall|q: int|
                0 <= q < s.merged_tables(level).len() ==> (#[trigger] s.merged_tables(
                    level,
                )[q]).path != x.path
        }),
{
    let below = s.levels[level + 1];
    let over = lsm_model::overlapping(s.levels[level], below);
    let hit = |x: Slot|
        lsm_model::overlaps(
            x,
            lsm_model::least_min(s.levels[level]),
            lsm_model::greatest_max(s.levels[level]),
        );
    assert(over == below.filter(hit));
    let fresh = lsm_model::new_slots(s.dir, s.next_file_id, made);
    lsm_model::lemma_new_slots(s.dir, s.next_file_id, made);
    let pick = |x: Slot| !lsm_model::names_path(over, x.path);
    let stay = below.filter(pick);
    let merged = s.merged_tables(level);
    let t = s.compacted(level, made);
    let x = t.levels[i][j];
    if i == level {
    } else if i == level + 1 {
        assert(t.levels[i] == lsm_model::sorted_by_min(stay + fresh));
        lemma_sorted_from(stay + fresh, j);
        let q = choose|q: int| 0 <= q < (stay + fresh).len() && (stay + fresh)[q] == x;
        if q < stay.len() {
            assert(stay[q] == x);
            lsm_model::lemma_filter_from(below, pick, q);
            lsm_laws::lemma_filter_picks(below, pick, q);
            let b = choose|b: int| 0 <= b < below.len() && below[b] == stay[q];
            assert(x == s.levels[level + 1][b]);
            assert forall|p: int| 0 <= p < merged.len() implies (#[trigger] merged[p]).path
                != x.path by {
                if p < s.levels[level].len() {
                    assert(merged[p] == s.levels[level][p]);
                } else {
                    assert(merged[p] == over[p - s.levels[level].len()]);
                    assert(!lsm_model::names_path(over, x.path));
                }
            }
        } else {
            assert(fresh[q - stay.len()] == x);
        }
    } else {
        assert(x == s.levels[i][j]);
        assert forall|p: int| 0 <= p < merged.len() implies (#[trigger] merged[p]).path
            != x.path by {
            if p < s.levels[level].len() {
                assert(merged[p] == s.levels[level][p]);
            } else {
                let o = p - s.levels[level].len();
                assert(merged[p] == over[o]);
                lsm_model::lemma_filter_from(below, hit, o);
                let b = choose|b: int| 0 <= b < below.len() && below[b] == below.filter(hit)[o];
                assert(merged[p] == s.levels[level + 1][b]);
            }
        }
    }
}

/// At every moment of a compaction the manifest lists tables whose files are there: the
/// tables of before, until all new ones are written, and the new ones from there on.
/// Only then are files removed, and in the end those of all merged tables are gone. The
/// log stays as it is. The tables have different names, and the new names are free.
pub proof fn lemma_compaction_is_safe(
    d: DiskImage,
    s: LsmView,
    level: int,
    made: Seq<TableView>,
    n: int,
)
    requires
        s.compacts(level),
        s.levels.len() == 7,
        all_there(d, s.levels),
        paths_differ(s.levels),
        s.next_file_id + made.len() <= u64::MAX,
        forall|q: int|
            0 <= q < made.len() ==> is_free(
                s.levels,
                #[trigger] lsm_model::table_path(s.dir, (s.next_file_id + q) as u64),
            ),
        0 <= n <= added(s, s.compacted(level, made)).len(),
    ensures
        s.compacted(level, made).pending.take(s.pending.len() as int) == s.pending,
        ({
            let t = s.compacted(level, made);
            let e = after(d, added(s, t).take(n));
            let listed = e.manifest == manifest::manifest_bytes(
                t.next_file_id,
                lsm_model::paths_of(t.levels),
            ) && all_there(e, t.levels);
            &&& e.log == d.log
            &&& listed || (e.manifest == d.manifest && all_there(e, s.levels))
            &&& n == added(s, t).len() ==> listed && forall|q: int|
                0 <= q < s.merged_tables(level).len() ==> !e.files.contains_key(
                    (#[trigger] s.merged_tables(level)[q]).path,
                )
        }),
{
    let t = s.compacted(level, made);
    let fresh = lsm_model::new_slots(s.dir, s.next_file_id, made);
    let merged = s.merged_tables(level);
    let m = manifest::manifest_bytes(t.next_file_id, lsm_model::paths_of(t.levels));
    let ws = lsm_model::write_ops(fresh);
    let ms = seq![DiskOpView::WriteManifest(m)];
    let rs = lsm_model::remove_ops(merged);
    let ops = added(s, t);
    let w = fresh.len() as int;
    assert(t.pending =~= s.pending + (ws + ms + rs));
    assert(ops =~= ws + ms + rs);
    assert(t.pending.take(s.pending.len() as int) =~= s.pending);
    lsm_model::lemma_new_slots(s.dir, s.next_file_id, made);
    assert forall|q: int| 0 <= q < w implies (#[trigger] fresh[q]).path == lsm_model::table_path(
        s.dir,
        (s.next_file_id + q) as u64,
    ) by {
        arrangement::lemma_new_paths(s.dir, s.next_file_id, made, q);
    }
    assert forall|i: int, j: int| 0 <= i < j < w implies (#[trigger] fresh[i]).path != (
    #[trigger] fresh[j]).path by {
        arrangement::lemma_paths_tell_apart(
            s.dir,
            (s.next_file_id + i) as u64,
            (s.next_file_id + j) as u64,
        );
    }
    assert forall|a: int, b: int, q: int|
        0 <= a < 7 && 0 <= b < s.levels[a].len() && 0 <= q < w implies (
    #[trigger] fresh[q]).path != (#[trigger] s.levels[a][b]).path by {
        assert(is_free(s.levels, lsm_model::table_path(s.dir, (s.next_file_id + q) as u64)));
    }
    let e = after(d, ops.take(n));
    if n <= w {
        assert(ops.take(n) =~= ws.take(n));
        lemma_after_writing(d, fresh, n);
        assert forall|i: int, j: int| 0 <= i < 7 && 0 <= j < s.levels[i].len() implies is_there(
            e,
            #[trigger] s.levels[i][j],
        ) by {
            assert(is_there(d, s.levels[i][j]));
        }
    } else {
        let k = n - w - 1;
        assert(ops.take(n) =~= ws.take(w) + ms + rs.take(k));
        lemma_after_writing(d, fresh, w);
        let d1 = after(d, ws.take(w));
        lemma_after_joined(d, ws.take(w), ms);
        let d2 = after(d, ws.take(w) + ms);
        assert(ms.drop_last() =~= Seq::empty());
        assert(after(d1, ms.drop_last()) == d1);
        assert(d2 == step(d1, DiskOpView::WriteManifest(m)));
        lemma_after_joined(d, ws.take(w) + ms, rs.take(k));
        lemma_after_removing(d2, merged, k);
        let below = s.levels[level + 1];
        let over = lsm_model::overlapping(s.levels[level], below);
        let hit = |x: Slot|
            lsm_model::overlaps(
                x,
                lsm_model::least_min(s.levels[level]),
                lsm_model::greatest_max(s.levels[level]),
            );
        assert(over == below.filter(hit));
        assert forall|q: int, p: int| 0 <= q < w && 0 <= p < merged.len() implies (
        #[trigger] fresh[q]).path != (#[trigger] merged[p]).path by {
            if p < s.levels[level].len() {
                assert(merged[p] == s.levels[level][p]);
            } else {
                let o = p - s.levels[level].len();
                assert(merged[p] == over[o]);
                lsm_model::lemma_filter_from(below, hit, o);
                let b = choose|b: int| 0 <= b < below.len() && below[b] == below.filter(hit)[o];
                assert(merged[p] == s.levels[level + 1][b]);
            }
        }
        assert forall|i: int, j: int| 0 <= i < t.levels.len() && 0 <= j
            < t.levels[i].len() implies is_there(e, #[trigger] t.levels[i][j]) by {
            let x = t.levels[i][j];
            lemma_compacted_from(s, level, made, i, j);
            if exists|q: int| 0 <= q < made.len() && x == fresh[q] {
                let q = choose|q: int| 0 <= q < made.len() && x == fresh[q];
                assert(is_there(d1, fresh[q]));
                assert(is_there(d2, x));
            } else {
                let (a, b) = choose|a: int, b: int|
                    0 <= a < 7 && 0 <= b < s.levels[a].len() && x == #[trigger] s.levels[a][b];
                assert(is_there(d, s.levels[a][b]));
                assert(is_there(d1, x));
                assert(is_there(d2, x));
            }
        }
    }
}

// ----------------------------------------------------------------------
// Recovery
// ----------------------------------------------------------------------
/// The path is none of the next `n` that tables get.
pub open spec fn is_no_new_path(s: LsmView, path: Seq<u8>, n: nat) -> bool {
    forall|q: int|
        0 <= q < n ==> #[trigger] lsm_model::table_path(s.dir, (s.next_file_id + q) as u64) != path
}

/// No table has any of the next `n` paths.
pub open spec fn new_paths_free(s: LsmView, n: nat) -> bool {
    forall|q: int|
        0 <= q < n ==> is_free(
            s.levels,
            #[trigger] lsm_model::table_path(s.dir, (s.next_file_id + q) as u64),
        )
}

proof fn lemma_recovered_step(d: DiskImage, s: LsmView, x: TableView, clean_up: DiskOpView, n: nat)
    requires
        s.levels.len() > 0,
        n > 0,
        s.next_file_id + n <= u64::MAX,
        all_there(d, s.levels),
        new_paths_free(s, n),
        clean_up is ResetLog || (clean_up matches DiskOpView::Remove(path) && is_free(s.levels, path)
            && is_no_new_path(s, path, n)),
    ensures
        ({
            let t = s.with_recovered(x, clean_up);
            let e = after(d, added(s, t));
            let path = lsm_model::table_path(s.dir, s.next_file_id);
            &&& t.pending.len() == s.pending.len() + 2
            &&& t.pending.take(s.pending.len() as int) == s.pending
            &&& t.dir == s.dir
            &&& t.levels.len() == s.levels.len()
            &&& t.next_file_id == s.next_file_id + 1
            &&& all_there(e, t.levels)
            &&& new_paths_free(t, (n - 1) as nat)
            &&& e == step(
                DiskImage { files: d.files.insert(path, x.data), ..d },
                clean_up,
            )
            &&& forall|p: Seq<u8>|
                #![trigger is_free(t.levels, p)]
                is_free(s.levels, p) && p != path ==> is_free(t.levels, p)
        }),
{
    let t = s.with_recovered(x, clean_up);
    let path = lsm_model::table_path(s.dir, s.next_file_id);
    let w = DiskOpView::WriteTable { path, file: x.data };
    let ops = added(s, t);
    assert(ops =~= seq![w, clean_up]);
    assert(t.pending.take(s.pending.len() as int) =~= s.pending);
    assert(ops.drop_last() =~= seq![w]);
    assert(seq![w].drop_last() =~= Seq::<DiskOpView>::empty());
    assert(after(d, Seq::<DiskOpView>::empty()) == d);
    assert(after(d, seq![w]) == step(d, w));
    let e = after(d, ops);
    assert(e == step(step(d, w), clean_up));
    assert(path == lsm_model::table_path(s.dir, (s.next_file_id + 0) as u64));
    assert(is_free(s.levels, path));
    assert forall|i: int, j: int| 0 <= i < t.levels.len() && 0 <= j < t.levels[i].len() implies
        is_there(e, #[trigger] t.levels[i][j]) by {
        if i == 0 && j == 0 {
        } else if i == 0 {
            assert(t.levels[0][j] == s.levels[0][j - 1]);
            assert(is_there(d, s.levels[0][j - 1]));
        } else {
            assert(t.levels[i][j] == s.levels[i][j]);
            assert(is_there(d, s.levels[i][j]));
        }
    }
    assert forall|p: Seq<u8>|
        #![trigger is_free(t.levels, p)]
        is_free(s.levels, p) && p != path implies is_free(t.levels, p) by {
        assert forall|i: int, j: int| 0 <= i < t.levels.len() && 0 <= j
            < t.levels[i].len() implies (#[trigger] t.levels[i][j]).path != p by {
            if i == 0 && j > 0 {
                assert(t.levels[0][j] == s.levels[0][j - 1]);
            } else if i > 0 {
                assert(t.levels[i][j] == s.levels[i][j]);
            }
        }
    }
    assert forall|q: int| 0 <= q < n - 1 implies is_free(
        t.levels,
        #[trigger] lsm_model::table_path(t.dir, (t.next_file_id + q) as u64),
    ) by {
        let id = (s.next_file_id + (q + 1)) as u64;
        arrangement::lemma_paths_tell_apart(s.dir, id, s.next_file_id);
        assert(is_free(s.levels, lsm_model::table_path(s.dir, id)));
    }
}

proof fn lemma_frozen_steps(
    d: DiskImage,
    s: LsmView,
    logs: Seq<(Seq<u8>, Seq<u8>)>,
    made: Seq<TableView>,
    n: nat,
)
    requires
        s.levels.len() > 0,
        logs.len() <= n,
        s.next_file_id + n <= u64::MAX,
        all_there(d, s.levels),
        new_paths_free(s, n),
        forall|i: int|
            0 <= i < logs.len() ==> is_free(s.levels, (#[trigger] logs[i]).0) && is_no_new_path(
                s,
                logs[i].0,
                n,
            ),
    ensures
        ({
            let t = s.with_frozen(logs, made);
            let e = after(d, added(s, t));
            &&& t.pending.len() >= s.pending.len()
            &&& t.pending.take(s.pending.len() as int) == s.pending
            &&& t.dir == s.dir
            &&& t.levels.len() == s.levels.len()
            &&& t.next_file_id == s.next_file_id + logs.len()
            &&& all_there(e, t.levels)
            &&& new_paths_free(t, (n - logs.len()) as nat)
            &&& e.log == d.log
            &&& e.manifest == d.manifest
            &&& forall|i: int| 0 <= i < logs.len() ==> !e.files.contains_key((#[trigger] logs[i]).0)
            &&& forall|p: Seq<u8>|
                #![trigger is_free(t.levels, p)]
                is_free(s.levels, p) && is_no_new_path(s, p, n) ==> is_free(t.levels, p)
        }),
    decreases logs.len(),
{
    let t = s.with_frozen(logs, made);
    if logs.len() == 0 {
        assert(added(s, t) =~= Seq::empty());
        assert(t.pending.take(s.pending.len() as int) =~= s.pending);
    } else {
        let front = logs.drop_last();
        assert forall|i: int| 0 <= i < front.len() implies is_free(s.levels, (#[trigger] front[i]).0)
            && is_no_new_path(s, front[i].0, n) by {
            assert(front[i] == logs[i]);
        }
        lemma_frozen_steps(d, s, front, made, n);
        let b = s.with_frozen(front, made);
        let eb = after(d, added(s, b));
        let last = logs[logs.len() - 1].0;
        let left = (n - front.len()) as nat;
        assert(is_free(b.levels, last));
        assert(is_no_new_path(b, last, left)) by {
            assert forall|q: int| 0 <= q < left implies #[trigger] lsm_model::table_path(
                b.dir,
                (b.next_file_id + q) as u64,
            ) != last by {
                let k = q + front.len();
                assert(lsm_model::table_path(s.dir, (s.next_file_id + k) as u64) != last);
            }
        }
        let x = made[logs.len() - 1];
        let clean_up = DiskOpView::Remove(last);
        lemma_recovered_step(eb, b, x, clean_up, left);
        assert(t == b.with_recovered(x, clean_up));
        let e = after(d, added(s, t));
        assert(added(s, t) =~= added(s, b) + added(b, t));
        lemma_after_joined(d, added(s, b), added(b, t));
        assert(t.pending.take(s.pending.len() as int) =~= b.pending.take(s.pending.len() as int));
        let path = lsm_model::table_path(b.dir, b.next_file_id);
        assert(b.next_file_id == s.next_file_id + front.len());
        assert(path == lsm_model::table_path(s.dir, (s.next_file_id + front.len()) as u64));
        assert forall|i: int| 0 <= i < logs.len() implies !e.files.contains_key(
            (#[trigger] logs[i]).0,
        ) by {
            if i < front.len() {
                assert(front[i] == logs[i]);
                assert(is_no_new_path(s, logs[i].0, n));
            }
        }
        assert forall|p: Seq<u8>|
            #![trigger is_free(t.levels, p)]
            is_free(s.levels, p) && is_no_new_path(s, p, n) implies is_free(t.levels, p) by {
            assert(is_free(b.levels, p));
            assert(p != path);
        }
    }
}

/// When an engine was opened again its disk holds what its manifest lists: each table's
/// file is there, whether it was there before or was made of a log. The logs that became
/// tables are gone, and the active log is empty where it had become one. Where no log
/// held anything the disk stays as it was. The new names are free, and no log has one.
pub proof fn lemma_recovery_leaves_tables(
    d: DiskImage,
    s: LsmView,
    logs: Seq<(Seq<u8>, Seq<u8>)>,
    active_log: Seq<u8>,
    made: Seq<TableView>,
)
    requires
        s.levels.len() > 0,
        made.len() == logs.len() + (if wal::recovered(active_log).len() > 0 {
            1nat
        } else {
            0nat
        }),
        s.next_file_id + made.len() <= u64::MAX,
        all_there(d, s.levels),
        new_paths_free(s, made.len()),
        forall|i: int|
            0 <= i < logs.len() ==> is_free(s.levels, (#[trigger] logs[i]).0) && is_no_new_path(
                s,
                logs[i].0,
                made.len(),
            ),
    ensures
        ({
            let t = s.recovered(logs, active_log, made);
            let e = after(d, added(s, t));
            &&& t.pending.take(s.pending.len() as int) == s.pending
            &&& all_there(e, t.levels)
            &&& made.len() > 0 ==> e.manifest == manifest::manifest_bytes(
                t.next_file_id,
                lsm_model::paths_of(t.levels),
            )
            &&& made.len() == 0 ==> e == d && t.levels == s.levels
            &&& e.log == if wal::recovered(active_log).len() > 0 {
                Seq::empty()
            } else {
                d.log
            }
            &&& forall|i: int| 0 <= i < logs.len() ==> !e.files.contains_key((#[trigger] logs[i]).0)
        }),
{
    let n = made.len();
    let b = s.with_frozen(logs, made);
    lemma_frozen_steps(d, s, logs, made, n);
    let eb = after(d, added(s, b));
    let whole = wal::recovered(active_log).len() > 0;
    let u = if whole {
        b.with_recovered(made[logs.len() as int], DiskOpView::ResetLog)
    } else {
        b
    };
    let eu = after(d, added(s, u));
    if whole {
        lemma_recovered_step(eb, b, made[logs.len() as int], DiskOpView::ResetLog, 1);
        assert(added(s, u) =~= added(s, b) + added(b, u));
        lemma_after_joined(d, added(s, b), added(b, u));
        assert(u.pending.take(s.pending.len() as int) =~= b.pending.take(s.pending.len() as int));
        let path = lsm_model::table_path(b.dir, b.next_file_id);
        assert(path == lsm_model::table_path(s.dir, (s.next_file_id + logs.len()) as u64));
        assert forall|i: int| 0 <= i < logs.len() implies !eu.files.contains_key(
            (#[trigger] logs[i]).0,
        ) by {
            assert(is_no_new_path(s, logs[i].0, n));
        }
    }
    let t = s.recovered(logs, active_log, made);
    if n > 0 {
        assert(t.pending == u.pending.push(lsm_model::manifest_of(u)));
        assert(added(s, t) =~= added(s, u).push(lsm_model::manifest_of(u)));
        assert(added(s, t).drop_last() =~= added(s, u));
        assert(t.pending.take(s.pending.len() as int) =~= u.pending.take(s.pending.len() as int));
        let e = after(d, added(s, t));
        assert(e.files == eu.files);
        assert forall|i: int, j: int| 0 <= i < t.levels.len() && 0 <= j < t.levels[i].len() implies
            is_there(e, #[trigger] t.levels[i][j]) by {
            assert(is_there(eu, u.levels[i][j]));
        }
    } else {
        assert(added(s, t) =~= Seq::empty());
    }
}

} // verus!
