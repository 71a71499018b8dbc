//! How tables move down from level to level.
use crate::bytes;
use crate::storage::compaction;
use crate::storage::compaction_laws;
use crate::storage::files_laws;
use crate::storage::key::Version;
use crate::storage::lsm_laws;
use crate::storage::lsm_model;
use crate::storage::lsm_model::{LsmView, Slot};
use crate::storage::reader::TableView;
use crate::storage::timestamp::HlcTimestamp;
use vstd::prelude::*;

verus! {

proof fn lemma_least_min(ts: Seq<Slot>) -> (k: int)
    requires
        ts.len() > 0,
    ensures
        0 <= k < ts.len(),
        lsm_model::least_min(ts) == ts[k].table.min.user,
    decreases ts.len(),
{
    if ts.len() == 1 {
        0
    } else {
        let q = lemma_least_min(ts.drop_last());
        if bytes::lex_lt(ts.last().table.min.user, lsm_model::least_min(ts.drop_last())) {
            ts.len() - 1
        } else {
            q
        }
    }
}

proof fn lemma_greatest_max(ts: Seq<Slot>) -> (k: int)
    requires
        ts.len() > 0,
    ensures
        0 <= k < ts.len(),
        lsm_model::greatest_max(ts) == ts[k].table.max.user,
    decreases ts.len(),
{
    if ts.len() == 1 {
        0
    } else {
        let q = lemma_greatest_max(ts.drop_last());
        if bytes::lex_lt(lsm_model::greatest_max(ts.drop_last()), ts.last().table.max.user) {
            ts.len() - 1
        } else {
            q
        }
    }
}

proof fn lemma_inserted_has(ts: Seq<Slot>, s: Slot)
    ensures
        lsm_model::insert_by_min(ts, s).contains(s),
        forall|q: int|
            0 <= q < ts.len() ==> lsm_model::insert_by_min(ts, s).contains(#[trigger] ts[q]),
    decreases ts.len(),
{
    let r = lsm_model::insert_by_min(ts, s);
    if ts.len() > 0 && bytes::lex_lt(s.table.min.user, ts.last().table.min.user) {
        let front = ts.drop_last();
        let inner = lsm_model::insert_by_min(front, s);
        lemma_inserted_has(front, s);
        assert(r == inner.push(ts.last()));
        assert forall|x: Slot| inner.contains(x) implies #[trigger] r.contains(x) by {
            let i = choose|i: int| 0 <= i < inner.len() && inner[i] == x;
            assert(r[i] == x);
        }
        assert forall|q: int| 0 <= q < ts.len() implies r.contains(#[trigger] ts[q]) by {
            if q < front.len() {
                assert(front[q] == ts[q]);
            } else {
                assert(r[r.len() - 1] == ts[q]);
            }
        }
    } else {
        assert(r == ts.push(s));
        assert(r[ts.len() as int] == s);
        assert forall|q: int| 0 <= q < ts.len() implies r.contains(#[trigger] ts[q]) by {
            assert(r[q] == ts[q]);
        }
    }
}

proof fn lemma_sorted_has(ts: Seq<Slot>)
    ensures
        forall|q: int|
            0 <= q < ts.len() ==> lsm_model::sorted_by_min(ts).contains(#[trigger] ts[q]),
    decreases ts.len(),
{
    if ts.len() > 0 {
        let front = ts.drop_last();
        let inner = lsm_model::sorted_by_min(front);
        lemma_sorted_has(front);
        lemma_inserted_has(inner, ts.last());
        assert forall|q: int| 0 <= q < ts.len() implies lsm_model::sorted_by_min(ts).contains(
            #[trigger] ts[q],
        ) by {
            if q < front.len() {
                assert(front[q] == ts[q]);
                let i = choose|i: int| 0 <= i < inner.len() && inner[i] == front[q];
                assert(inner[i] == ts[q]);
            }
        }
    }
}

/// A compaction empties its level, and changes none but the next one. There a table
/// whose keys all come before those of the level, or all behind them, stays as it is.
/// The last level has none to move down to. The tables have different names.
pub proof fn lemma_level_moves_down<F: Fn(usize) -> (usize, usize)>(
    f: F,
    s: LsmView,
    level: int,
    watermark: HlcTimestamp,
    t: LsmView,
    i: int,
    j: int,
)
    requires
        s.levels.len() == 7,
        files_laws::paths_differ(s.levels),
        lsm_model::after_compaction(f, s, level, watermark, t),
        0 <= level < 7,
    ensures
        t.levels.len() == 7,
        level < 6 ==> t.levels[level].len() == 0,
        0 <= i < 7 && i != level && i != level + 1 ==> t.levels[i] == s.levels[i],
        level == 6 ==> t == s,
        level < 6 && 0 <= j < s.levels[level + 1].len() && ((forall|k: int|
            0 <= k < s.levels[level].len() ==> bytes::lex_lt(
                s.levels[level + 1][j].table.max.user,
                (#[trigger] s.levels[level][k]).table.min.user,
            )) || (forall|k: int|
            0 <= k < s.levels[level].len() ==> bytes::lex_lt(
                (#[trigger] s.levels[level][k]).table.max.user,
                s.levels[level + 1][j].table.min.user,
            ))) ==> t.levels[level + 1].contains(s.levels[level + 1][j]),
{
    if s.compacts(level) {
        let runs = s.new_runs(level, watermark);
        let made = choose|made: Seq<TableView>|
            #![trigger s.compacted(level, made)]
            made.len() == runs.len() && (forall|i: int|
                0 <= i < made.len() ==> lsm_model::built(f, #[trigger] made[i], runs[i])) && t
                == s.compacted(level, made);
        let inputs = s.levels[level];
        let below = s.levels[level + 1];
        if 0 <= j < below.len() {
            let x = below[j];
            let over = lsm_model::overlapping(inputs, below);
            let hit = |x: Slot|
                lsm_model::overlaps(x, lsm_model::least_min(inputs), lsm_model::greatest_max(inputs));
            assert(over == below.filter(hit));
            let a = lemma_least_min(inputs);
            let b = lemma_greatest_max(inputs);
            let beside = (forall|k: int|
                0 <= k < inputs.len() ==> bytes::lex_lt(
                    x.table.max.user,
                    (#[trigger] inputs[k]).table.min.user,
                )) || (forall|k: int|
                0 <= k < inputs.len() ==> bytes::lex_lt(
                    (#[trigger] inputs[k]).table.max.user,
                    x.table.min.user,
                ));
            if beside {
                assert(bytes::lex_lt(x.table.max.user, inputs[a].table.min.user) || bytes::lex_lt(
                    inputs[b].table.max.user,
                    x.table.min.user,
                ));
                assert(!hit(x));
                let pick = |x: Slot| !lsm_model::names_path(over, x.path);
                let stay = below.filter(pick);
                let fresh = lsm_model::new_slots(s.dir, s.next_file_id, made);
                if lsm_model::names_path(over, x.path) {
                    let o = choose|o: int| 0 <= o < over.len() && (#[trigger] over[o]).path == x.path;
                    lsm_model::lemma_filter_from(below, hit, o);
                    lsm_laws::lemma_filter_picks(below, hit, o);
                    let q = choose|q: int| 0 <= q < below.len() && below[q] == below.filter(hit)[o];
                    assert(s.levels[level + 1][q].path == s.levels[level + 1][j].path);
                }
                assert(pick(x));
                let at = lsm_laws::lemma_filter_has(below, pick, j);
                lemma_sorted_has(stay + fresh);
                assert((stay + fresh)[at] == x);
            }
        }
    }
}

proof fn lemma_cut_from(run: Seq<Version>, max_file_size: usize)
    ensures
        forall|i: int, j: int|
            0 <= i < compaction::cut_of(run, max_file_size).files.len() && 0 <= j
                < compaction::cut_of(run, max_file_size).files[i].len() ==> run.contains(
                #[trigger] compaction::cut_of(run, max_file_size).files[i][j],
            ),
        forall|j: int|
            0 <= j < compaction::cut_of(run, max_file_size).open.len() ==> run.contains(
                #[trigger] compaction::cut_of(run, max_file_size).open[j],
            ),
    decreases run.len(),
{
    if run.len() > 0 {
        let front = run.drop_last();
        lemma_cut_from(front, max_file_size);
        let a = compaction::cut_of(front, max_file_size);
        let b = compaction::cut_of(run, max_file_size);
        assert(b == a.plus(run.last(), max_file_size));
        assert(run.contains(run.last())) by {
            assert(run[run.len() - 1] == run.last());
        }
        assert forall|v: Version| front.contains(v) implies #[trigger] run.contains(v) by {
            let q = choose|q: int| 0 <= q < front.len() && front[q] == v;
            assert(run[q] == v);
        }
        let open = a.open.push(run.last());
        assert forall|j: int| 0 <= j < open.len() implies run.contains(#[trigger] open[j]) by {
            if j < a.open.len() {
                assert(open[j] == a.open[j]);
                assert(front.contains(a.open[j]));
            }
        }
        assert forall|i: int, j: int| 0 <= i < b.files.len() && 0 <= j
            < b.files[i].len() implies run.contains(#[trigger] b.files[i][j]) by {
            if i < a.files.len() {
                assert(b.files[i] == a.files[i]);
                assert(front.contains(a.files[i][j]));
            } else {
                assert(b.files[i] == open);
                assert(run.contains(open[j]));
            }
        }
        assert forall|j: int| 0 <= j < b.open.len() implies run.contains(#[trigger] b.open[j]) by {
            assert(b.open[j] == open[j]);
        }
    }
}

/// A compaction into the last level leaves no deletion there from before the watermark:
/// nothing is below that it could hide.
pub proof fn lemma_last_level_has_no_old_deletions(
    s: LsmView,
    watermark: HlcTimestamp,
    i: int,
    j: int,
)
    requires
        0 <= i < s.new_runs(5, watermark).len(),
        0 <= j < s.new_runs(5, watermark)[i].len(),
        s.new_runs(5, watermark)[i][j].value is None,
    ensures
        compaction_laws::is_at_or_before(watermark, s.new_runs(5, watermark)[i][j].key.ts),
{
    let m = compaction::merge(lsm_model::slot_runs(s.merged_tables(5)));
    let left = compaction::survivors(m, m.len() as int, watermark, true);
    let v = s.new_runs(5, watermark)[i][j];
    let cut = compaction::cut_of(left, lsm_model::MAX_FILE_SIZE);
    lemma_cut_from(left, lsm_model::MAX_FILE_SIZE);
    assert(s.new_runs(5, watermark) == cut.all());
    if i < cut.files.len() {
        assert(cut.files[i][j] == v);
    } else {
        assert(cut.open[j] == v);
    }
    assert(left.contains(v));
    compaction_laws::lemma_compaction_drops_shadowed(m, m.len() as int, watermark, true);
    let q = choose|q: int|
        0 <= q < m.len() && #[trigger] m[q] == v && compaction::kept(m, q, watermark, true);
    assert(m[q].value is None);
}

} // verus!
