//! What plans and searches give, in terms of the rows and of what was asked.
use crate::bitmap;
use crate::index::hnsw;
use crate::index::hnsw::HnswView;
use crate::index::learned;
use crate::planner;
use crate::planner::{ExecutionStrategy, PlannerConfig, Share, ShardStats, VectorQuery};
use crate::service_laws;
use roaring::RoaringBitmap;
use vstd::prelude::*;

verus! {

// ----------------------------------------------------------------------
// Plans
// ----------------------------------------------------------------------
/// A shard with few rows is scanned. One with more is searched on disk where it takes
/// much memory and its index is there. Else its graph is searched in memory, and where
/// only some rows count either these alone are visited, when they are a small enough
/// share of all, or others are sorted out behind the search.
pub proof fn lemma_plan(c: PlannerConfig, q: VectorQuery, s: ShardStats)
    ensures
        ({
            let st = planner::strategy(c, q, s);
            let few = s.row_count <= c.bruteforce_threshold;
            let heavy = s.memory_bytes > c.memory_threshold_bytes && s.has_disk_index;
            &&& st == ExecutionStrategy::BruteForceScan <==> few
            &&& st == ExecutionStrategy::OutofCoreVamana <==> !few && heavy
            &&& st == ExecutionStrategy::InMemoryHnsw <==> !few && !heavy && q.filter is None
            &&& !few && !heavy && q.filter is Some ==> {
                let all = bitmap::bitmap_count(q.filter->0);
                let n = if all <= s.row_count {
                    all as int
                } else {
                    s.row_count as int
                };
                let t = c.prefilter_selectivity_threshold;
                &&& n * t.whole < t.part * s.row_count ==> st == ExecutionStrategy::PrefilterGraph
                &&& n * t.whole >= t.part * s.row_count ==> st
                    == ExecutionStrategy::PostfilterGraph
            }
        }),
{
}

/// A planner that was not told otherwise scans up to five hundred rows, holds ten
/// megabytes for much, and visits only what counts where that is less than a quarter.
pub proof fn lemma_default_plan(q: VectorQuery, s: ShardStats)
    ensures
        ({
            let st = planner::strategy(planner::default_config(), q, s);
            &&& s.row_count <= 500 ==> st == ExecutionStrategy::BruteForceScan
            &&& s.row_count > 500 && s.memory_bytes > 10 * 1024 * 1024 && s.has_disk_index ==> st
                == ExecutionStrategy::OutofCoreVamana
            &&& s.row_count > 500 && !s.has_disk_index && q.filter is None ==> st
                == ExecutionStrategy::InMemoryHnsw
            &&& s.row_count > 500 && !s.has_disk_index && q.filter is Some ==> (st
                == ExecutionStrategy::PrefilterGraph <==> 4 * bitmap::bitmap_count(q.filter->0)
                < s.row_count)
        }),
{
}

/// Which of two shares is the lesser does not change when one is written with other
/// numbers.
pub proof fn lemma_shares_are_ratios(a: Share, b: Share, n: u64)
    requires
        n > 0,
        a.part * n <= u64::MAX,
        a.whole * n <= u64::MAX,
    ensures
        a.lt(b) <==> (Share { part: (a.part * n) as u64, whole: (a.whole * n) as u64 }).lt(b),
        b.lt(a) <==> b.lt(Share { part: (a.part * n) as u64, whole: (a.whole * n) as u64 }),
        a.lt(b) ==> !b.lt(a),
{
    let (ap, aw, bp, bw, m) = (
        a.part as int,
        a.whole as int,
        b.part as int,
        b.whole as int,
        n as int,
    );
    assert((ap * bw < bp * aw) == ((ap * m) * bw < bp * (aw * m))) by (nonlinear_arith)
        requires
            m > 0,
    ;
    assert((bp * aw < ap * bw) == (bp * (aw * m) < (ap * m) * bw)) by (nonlinear_arith)
        requires
            m > 0,
    ;
}

/// Of a shard's rows a filter lets through the share that it has of them, never more
/// than all; and of a shard without rows it lets nothing through.
pub proof fn lemma_share_of_the_rows(rows: usize, matching: u64)
    ensures
        ({
            let s = planner::selectivity(rows, matching);
            &&& s.part <= s.whole && s.whole > 0
            &&& matching <= rows ==> s.part * rows == matching * s.whole
            &&& matching > rows && rows > 0 ==> s.part == s.whole
            &&& rows == 0 ==> s.part == 0
        }),
{
}

// ----------------------------------------------------------------------
// Filters
// ----------------------------------------------------------------------
/// The hit counts: its node is let through, and it is no farther than the radius.
pub open spec fn counts(filter: Option<RoaringBitmap>, radius: Option<i64>, h: (u64, u32)) -> bool {
    &&& filter matches Some(f) ==> bitmap::bitmap_ids(f).contains(h.0 as u32)
    &&& radius matches Some(r) ==> h.1 <= r
}

/// What is kept of hits is those whose nodes are let through, in their order.
pub proof fn lemma_passing_is_a_filter(filter: Option<RoaringBitmap>, v: Seq<(u64, u32)>)
    ensures
        planner::passing(filter, v) == v.filter(|h: (u64, u32)| counts(filter, None, h)),
    decreases v.len(),
{
    reveal(Seq::filter);
    if v.len() > 0 {
        lemma_passing_is_a_filter(filter, v.drop_last());
    }
}

/// What is kept of hits is those that are no farther than the radius, in their order.
pub proof fn lemma_in_range_is_a_filter(radius: Option<i64>, v: Seq<(u64, u32)>)
    ensures
        planner::in_range(radius, v) == v.filter(|h: (u64, u32)| counts(None, radius, h)),
    decreases v.len(),
{
    reveal(Seq::filter);
    if v.len() > 0 {
        lemma_in_range_is_a_filter(radius, v.drop_last());
    }
}

/// What is kept of hits is those that count, in their order.
pub proof fn lemma_kept_is_a_filter(
    filter: Option<RoaringBitmap>,
    radius: Option<i64>,
    v: Seq<(u64, u32)>,
)
    ensures
        planner::in_range(radius, planner::passing(filter, v)) == v.filter(
            |h: (u64, u32)| counts(filter, radius, h),
        ),
    decreases v.len(),
{
    reveal(Seq::filter);
    if v.len() > 0 {
        let front = v.drop_last();
        lemma_kept_is_a_filter(filter, radius, front);
        let a = planner::passing(filter, front);
        assert(a.push(v.last()).drop_last() =~= a);
    }
}

/// At most `k` hits are kept, the first ones, and all where there are no more.
pub proof fn lemma_cut(v: Seq<(u64, u32)>, k: usize)
    ensures
        v.len() <= k ==> planner::cut(v, k) == v,
        v.len() > k ==> planner::cut(v, k) == v.subrange(0, k as int),
{
    assert(v.take(v.len() as int) =~= v);
}

// ----------------------------------------------------------------------
// Scans
// ----------------------------------------------------------------------
/// A scan gives the `k` nearest of the rows that count, or all of these where there are
/// no more, the nearest first: each hit is a row that counts with its distance, and a
/// row that counts is left out only when `k` are there that are no farther.
pub proof fn lemma_scan_gives_the_nearest(
    q: VectorQuery,
    ids: Seq<u64>,
    rank: spec_fn(u64) -> u32,
    i: int,
)
    requires
        0 <= i < ids.len(),
    ensures
        ({
            let r = planner::nearest(q, ids, rank);
            let rows = Seq::new(ids.len(), |m: int| (ids[m], rank(m as u64)));
            let n = rows.filter(|h: (u64, u32)| counts(q.filter, q.radius, h)).len();
            &&& r.len() == if n < q.k {
                n
            } else {
                q.k as nat
            }
            &&& forall|a: int, b: int|
                0 <= a < b < r.len() ==> (#[trigger] r[a]).1 <= (#[trigger] r[b]).1
            &&& forall|a: int|
                0 <= a < r.len() ==> rows.contains(#[trigger] r[a]) && counts(
                    q.filter,
                    q.radius,
                    r[a],
                )
            &&& counts(q.filter, q.radius, (ids[i], rank(i as u64))) ==> r.contains(
                (ids[i], rank(i as u64)),
            ) || (r.len() == q.k && forall|a: int|
                0 <= a < r.len() ==> (#[trigger] r[a]).1 <= rank(i as u64))
        }),
{
    let rows = planner::measured(ids, rank);
    let pick = |h: (u64, u32)| counts(q.filter, q.radius, h);
    let kept = planner::in_range(q.radius, planner::passing(q.filter, rows));
    let sorted = planner::by_rank(kept);
    let r = planner::nearest(q, ids, rank);
    assert(rows =~= Seq::new(ids.len(), |m: int| (ids[m], rank(m as u64))));
    lemma_kept_is_a_filter(q.filter, q.radius, rows);
    service_laws::lemma_by_rank(kept);
    assert forall|a: int| 0 <= a < r.len() implies rows.contains(#[trigger] r[a]) && counts(
        q.filter,
        q.radius,
        r[a],
    ) by {
        assert(r[a] == sorted[a]);
        assert(kept.contains(sorted[a]));
        let b = choose|b: int| 0 <= b < kept.len() && kept[b] == sorted[a];
        let m = service_laws::lemma_filter_of(rows, pick, b);
        assert(rows[m] == r[a]);
    }
    let x = (ids[i], rank(i as u64));
    if counts(q.filter, q.radius, x) {
        assert(rows[i] == x);
        let b = service_laws::lemma_filter_keeps(rows, pick, i);
        assert(kept[b] == x);
        assert(sorted.contains(kept[b]));
        let p = choose|p: int| 0 <= p < sorted.len() && sorted[p] == x;
        if p < r.len() {
            assert(r[p] == x);
        } else {
            assert forall|a: int| 0 <= a < r.len() implies (#[trigger] r[a]).1 <= x.1 by {
                assert(sorted[a].1 <= sorted[p].1);
            }
        }
    }
}

/// Where others are sorted out behind a search, at least as many nodes are found as are
/// asked for and as are wanted, as far as there are rows, and no more than there are.
pub proof fn lemma_enough_are_found(k: usize, wanted: usize, rows: usize)
    ensures
        planner::overfetch(k, wanted, rows) <= rows,
        planner::overfetch(k, wanted, rows) >= k || planner::overfetch(k, wanted, rows) == rows,
        planner::overfetch(k, wanted, rows) >= wanted || planner::overfetch(k, wanted, rows)
            == rows,
        planner::overfetch(k, wanted, rows) == k || planner::overfetch(k, wanted, rows) == wanted
            || planner::overfetch(k, wanted, rows) == rows,
{
}

// ----------------------------------------------------------------------
// Learned entries
// ----------------------------------------------------------------------
/// A learned entry is a node that was noted; no other's short form is nearer, and none
/// that was noted before it is as near; and it is within the threshold. None is given
/// only where none is within it.
pub proof fn lemma_learned_entry_is_nearest(
    data: Seq<(u64, usize)>,
    rank: spec_fn(u64) -> u32,
    threshold: u32,
    r: Option<(u64, usize)>,
    j: int,
)
    requires
        learned::predicted(data, rank, threshold, r),
        threshold < learned::FARTHEST,
        0 <= j < data.len(),
    ensures
        r is None ==> rank(j as u64) > threshold,
        r is Some ==> exists|i: int|
            0 <= i < data.len() && #[trigger] data[i] == r->0 && rank(i as u64) <= threshold
                && rank(i as u64) <= rank(j as u64) && (j < i ==> rank(i as u64) < rank(j as u64)),
        rank(j as u64) <= threshold ==> r is Some,
{
    if r is Some {
        let i = choose|i: int| #[trigger]
            learned::is_nearest(rank, data.len() as int, i) && learned::bounded(rank(i as u64))
                <= threshold && r->0 == data[i];
        assert(data[i] == r->0);
        assert(learned::bounded(rank(i as u64)) <= learned::bounded(rank(j as u64)));
    } else {
        assert(learned::bounded(rank(j as u64)) > threshold);
    }
}

/// A search begins at the learned node where that counts still, on the layer up to
/// which it reaches but not above the highest; else where all searches begin.
pub proof fn lemma_learned_search_begins(
    g: HnswView,
    rank: spec_fn(u64) -> u32,
    k: usize,
    p: Option<(u64, usize)>,
)
    ensures
        p is None ==> learned::answer(g, rank, k, p) == hnsw::answer(g, rank, k),
        p matches Some(e) ==> if g.nodes.contains_key(e.0) && !g.dead.contains(e.0) {
            &&& e.1 <= g.entry_layer ==> learned::answer(g, rank, k, p) == hnsw::knn(
                g,
                rank,
                k,
                e.0,
                e.1 as int,
            )
            &&& e.1 > g.entry_layer ==> learned::answer(g, rank, k, p) == hnsw::knn(
                g,
                rank,
                k,
                e.0,
                g.entry_layer as int,
            )
        } else {
            learned::answer(g, rank, k, p) == hnsw::answer(g, rank, k)
        },
{
}

} // verus!
