//! Chooses how a search is carried out, and carries it out.
use crate::bitmap;
use crate::bitmap::{bitmap_has, bitmap_len};
use crate::index::disk;
use crate::index::error::IndexError;
use crate::index::hnsw;
use crate::index::hnsw::HnswIndex;
use crate::index::learned;
use crate::index::learned::HnswWithLearnedEntry;
use crate::index::measure;
use crate::index::order;
use crate::index::order::sort_pairs;
use roaring::RoaringBitmap;
use vstd::prelude::*;

verus! {

/// A search for the `k` vectors nearest to one of `len` numbers. The vector itself
/// stays with the caller.
pub struct VectorQuery {
    pub len: usize,
    pub k: usize,
    /// The rank of the greatest distance that counts; below zero none does.
    pub radius: Option<i64>,
    /// The nodes that count.
    pub filter: Option<RoaringBitmap>,
}

impl VectorQuery {
    /// A search in which all nodes count.
    pub fn new(len: usize, k: usize) -> (r: Self)
        ensures
            r == (VectorQuery { len, k, radius: None, filter: None }),
    {
        VectorQuery { len, k, radius: None, filter: None }
    }

    /// The same search in which only nodes in some distance count.
    pub fn with_radius(self, radius: i64) -> (r: Self)
        ensures
            r == (VectorQuery { radius: Some(radius), ..self }),
    {
        VectorQuery { radius: Some(radius), ..self }
    }

    /// The same search in which only some nodes count.
    pub fn with_filter(self, filter: RoaringBitmap) -> (r: Self)
        ensures
            r == (VectorQuery { filter: Some(filter), ..self }),
    {
        VectorQuery { filter: Some(filter), ..self }
    }
}

/// How a search is carried out.
#[derive(Debug, Clone, Copy, PartialEq, Eq, Structural)]
pub enum ExecutionStrategy {
    /// Every vector is compared with the query.
    BruteForceScan,
    /// The layered graph is searched.
    InMemoryHnsw,
    /// The layered graph is searched from a learned node on.
    InMemoryLearnedHnsw,
    /// The graph on disk is searched.
    OutofCoreVamana,
    /// Only nodes that count are visited.
    PrefilterGraph,
    /// More nodes than asked for are found, and those that count are kept.
    PostfilterGraph,
}

/// A part of a whole.
#[derive(Debug, Clone, Copy, PartialEq, Eq, Structural)]
pub struct Share {
    pub part: u64,
    pub whole: u64,
}

impl Share {
    pub open spec fn wf(self) -> bool {
        self.whole > 0
    }

    /// Less of its whole than the other is of its own.
    pub open spec fn lt(self, other: Share) -> bool {
        self.part * other.whole < other.part * self.whole
    }

    fn is_less(&self, other: &Share) -> (r: bool)
        ensures
            r == self.lt(*other),
    {
        let a: u128 = self.part as u128;
        let b: u128 = other.whole as u128;
        let c: u128 = other.part as u128;
        let d: u128 = self.whole as u128;
        assert(a * b <= 0xFFFF_FFFF_FFFF_FFFF * 0xFFFF_FFFF_FFFF_FFFF) by (nonlinear_arith)
            requires
                a <= 0xFFFF_FFFF_FFFF_FFFF,
                b <= 0xFFFF_FFFF_FFFF_FFFF,
        ;
        assert(c * d <= 0xFFFF_FFFF_FFFF_FFFF * 0xFFFF_FFFF_FFFF_FFFF) by (nonlinear_arith)
            requires
                c <= 0xFFFF_FFFF_FFFF_FFFF,
                d <= 0xFFFF_FFFF_FFFF_FFFF,
        ;
        a * b < c * d
    }
}

/// What is known of a shard.
#[derive(Debug, Clone, Copy, PartialEq, Eq, Structural)]
pub struct ShardStats {
    pub row_count: usize,
    pub memory_bytes: usize,
    pub has_disk_index: bool,
}

/// Which share of so many rows a set of so many numbers matches: at most all of
/// them, and none where there are none.
pub open spec fn selectivity(rows: usize, matching: u64) -> Share {
    if rows == 0 {
        Share { part: 0, whole: 1 }
    } else if matching <= rows {
        Share { part: matching, whole: rows as u64 }
    } else {
        Share { part: rows as u64, whole: rows as u64 }
    }
}

impl ShardStats {
    /// What is known of a shard.
    pub fn new(row_count: usize, memory_bytes: usize, has_disk_index: bool) -> (r: Self)
        ensures
            r == (ShardStats { row_count, memory_bytes, has_disk_index }),
    {
        ShardStats { row_count, memory_bytes, has_disk_index }
    }

    /// Which share of the rows the filter is likely to let through.
    pub fn estimate_selectivity(&self, filter: &RoaringBitmap) -> (r: Share)
        ensures
            r == selectivity(self.row_count, bitmap::bitmap_count(*filter)),
            r.wf(),
            r.part <= r.whole,
    {
        if self.row_count == 0 {
            return Share { part: 0, whole: 1 };
        }
        let matching: u64 = bitmap_len(filter);
        let rows: u64 = self.row_count as u64;
        if matching <= rows {
            Share { part: matching, whole: rows }
        } else {
            Share { part: rows, whole: rows }
        }
    }

    /// The shard has other rows now.
    pub fn refresh(&mut self, row_count: usize, memory_bytes: usize)
        ensures
            *final(self) == (ShardStats { row_count, memory_bytes, ..*old(self) }),
    {
        self.row_count = row_count;
        self.memory_bytes = memory_bytes;
    }
}

/// Where the planner changes from one way to another.
#[derive(Debug, Clone, Copy, PartialEq, Eq, Structural)]
pub struct PlannerConfig {
    /// Up to how many rows each is compared with the query.
    pub bruteforce_threshold: usize,
    /// Above how many bytes the index on disk is used.
    pub memory_threshold_bytes: usize,
    /// Below which share of matching rows only those are visited.
    pub prefilter_selectivity_threshold: Share,
}

impl Default for PlannerConfig {
    fn default() -> (r: Self)
        ensures
            r == (PlannerConfig {
                bruteforce_threshold: 500,
                memory_threshold_bytes: 10_485_760,
                prefilter_selectivity_threshold: Share { part: 1, whole: 4 },
            }),
    {
        PlannerConfig {
            bruteforce_threshold: 500,
            memory_threshold_bytes: 10_485_760,
            prefilter_selectivity_threshold: Share { part: 1, whole: 4 },
        }
    }
}

/// Chooses how searches are carried out.
#[derive(Debug, Clone, Copy, PartialEq, Eq, Structural)]
pub struct QueryPlanner {
    pub config: PlannerConfig,
}

impl Default for QueryPlanner {
    fn default() -> (r: Self)
        ensures
            r.config == default_config(),
    {
        QueryPlanner::new()
    }
}

/// Where the planner changes from one way to another unless told otherwise.
pub open spec fn default_config() -> PlannerConfig {
    PlannerConfig {
        bruteforce_threshold: 500,
        memory_threshold_bytes: 10_485_760,
        prefilter_selectivity_threshold: Share { part: 1, whole: 4 },
    }
}

/// How a search is carried out: few rows are all compared; rows that take much
/// memory are searched on disk, where they are; where only some rows count, it
/// depends on how many do.
pub open spec fn strategy(c: PlannerConfig, q: VectorQuery, s: ShardStats) -> ExecutionStrategy {
    if s.row_count <= c.bruteforce_threshold {
        ExecutionStrategy::BruteForceScan
    } else if s.memory_bytes > c.memory_threshold_bytes && s.has_disk_index {
        ExecutionStrategy::OutofCoreVamana
    } else {
        match q.filter {
            Some(f) => if selectivity(s.row_count, bitmap::bitmap_count(f)).lt(
                c.prefilter_selectivity_threshold,
            ) {
                ExecutionStrategy::PrefilterGraph
            } else {
                ExecutionStrategy::PostfilterGraph
            },
            None => ExecutionStrategy::InMemoryHnsw,
        }
    }
}

/// The node counts.
pub open spec fn passes(filter: Option<RoaringBitmap>, id: u64) -> bool {
    match filter {
        Some(f) => bitmap::bitmap_ids(f).contains(id as u32),
        None => true,
    }
}

/// The distance counts.
pub open spec fn in_radius(radius: Option<i64>, rank: u32) -> bool {
    match radius {
        Some(r) => rank <= r,
        None => true,
    }
}

/// The nodes that count.
pub open spec fn passing(filter: Option<RoaringBitmap>, v: Seq<(u64, u32)>) -> Seq<(u64, u32)>
    decreases v.len(),
{
    if v.len() == 0 {
        Seq::empty()
    } else if passes(filter, v.last().0) {
        passing(filter, v.drop_last()).push(v.last())
    } else {
        passing(filter, v.drop_last())
    }
}

/// The nodes whose distances count.
pub open spec fn in_range(radius: Option<i64>, v: Seq<(u64, u32)>) -> Seq<(u64, u32)>
    decreases v.len(),
{
    if v.len() == 0 {
        Seq::empty()
    } else if in_radius(radius, v.last().1) {
        in_range(radius, v.drop_last()).push(v.last())
    } else {
        in_range(radius, v.drop_last())
    }
}

/// At most `k` of them, the first ones.
pub open spec fn cut(v: Seq<(u64, u32)>, k: usize) -> Seq<(u64, u32)> {
    v.take(hnsw::lesser(k as int, v.len() as int))
}

/// Each row with the rank of its distance.
pub open spec fn measured(ids: Seq<u64>, rank: spec_fn(u64) -> u32) -> Seq<(u64, u32)> {
    Seq::new(ids.len(), |i: int| (ids[i], rank(i as u64)))
}

/// Pairs with wider second numbers.
pub open spec fn wide(v: Seq<(u64, u32)>) -> Seq<(u64, u64)> {
    Seq::new(v.len(), |i: int| (v[i].0, v[i].1 as u64))
}

/// Nodes in the order of their ranks; equal ones keep their order.
pub open spec fn by_rank(v: Seq<(u64, u32)>) -> Seq<(u64, u32)> {
    disk::short(order::in_order(wide(v)))
}

/// The `k` nearest of the rows that count.
pub open spec fn nearest(q: VectorQuery, ids: Seq<u64>, rank: spec_fn(u64) -> u32) -> Seq<
    (u64, u32),
> {
    cut(by_rank(in_range(q.radius, passing(q.filter, measured(ids, rank)))), q.k)
}

/// How many nodes are asked for so that enough of them count.
pub open spec fn overfetch(k: usize, wanted: usize, rows: usize) -> usize {
    let more = if wanted > k {
        wanted
    } else {
        k
    };
    if more < rows {
        more
    } else {
        rows
    }
}

/// Whether the node counts.
fn does_pass(filter: &Option<RoaringBitmap>, id: u64) -> (r: bool)
    ensures
        r == passes(*filter, id),
{
    match filter {
        Some(f) => bitmap_has(f, id as u32),
        None => true,
    }
}

/// Keeps the nodes that count.
fn keep_passing(filter: &Option<RoaringBitmap>, v: Vec<(u64, u32)>) -> (r: Vec<(u64, u32)>)
    ensures
        r@ == passing(*filter, v@),
{
    let mut out: Vec<(u64, u32)> = Vec::new();
    let mut i: usize = 0;
    while i < v.len()
        invariant
            i <= v@.len(),
            out@ == passing(*filter, v@.take(i as int)),
        decreases v@.len() - i,
    {
        assert(v@.take(i + 1).drop_last() =~= v@.take(i as int));
        if does_pass(filter, v[i].0) {
            out.push(v[i]);
        }
        i = i + 1;
    }
    assert(v@.take(i as int) =~= v@);
    out
}

/// Keeps the nodes whose distances count.
pub fn apply_radius(results: Vec<(u64, u32)>, radius: Option<i64>) -> (r: Vec<(u64, u32)>)
    ensures
        r@ == in_range(radius, results@),
{
    let mut out: Vec<(u64, u32)> = Vec::new();
    let mut i: usize = 0;
    while i < results.len()
        invariant
            i <= results@.len(),
            out@ == in_range(radius, results@.take(i as int)),
        decreases results@.len() - i,
    {
        assert(results@.take(i + 1).drop_last() =~= results@.take(i as int));
        let near: bool = match radius {
            Some(r) => results[i].1 as i64 <= r,
            None => true,
        };
        if near {
            out.push(results[i]);
        }
        i = i + 1;
    }
    assert(results@.take(i as int) =~= results@);
    out
}

/// Puts nodes in the order of their ranks.
pub fn sort_hits(v: Vec<(u64, u32)>) -> (r: Vec<(u64, u32)>)
    ensures
        r@ == by_rank(v@),
{
    let mut pairs: Vec<(u64, u64)> = Vec::new();
    let mut i: usize = 0;
    while i < v.len()
        invariant
            i <= v@.len(),
            pairs@ == wide(v@.take(i as int)),
        decreases v@.len() - i,
    {
        pairs.push((v[i].0, v[i].1 as u64));
        assert(pairs@ =~= wide(v@.take(i + 1)));
        i = i + 1;
    }
    assert(v@.take(i as int) =~= v@);
    let sorted = sort_pairs(pairs);
    let mut out: Vec<(u64, u32)> = Vec::new();
    let mut j: usize = 0;
    while j < sorted.len()
        invariant
            j <= sorted@.len(),
            out@ == disk::short(sorted@.take(j as int)),
        decreases sorted@.len() - j,
    {
        out.push((sorted[j].0, sorted[j].1 as u32));
        assert(out@ =~= disk::short(sorted@.take(j + 1)));
        j = j + 1;
    }
    assert(sorted@.take(j as int) =~= sorted@);
    out
}

/// At most `k` of them, the first ones.
pub fn cut_hits(v: Vec<(u64, u32)>, k: usize) -> (r: Vec<(u64, u32)>)
    ensures
        r@ == cut(v@, k),
{
    let mut out = v;
    if k < out.len() {
        out.truncate(k);
    }
    assert(out@ =~= cut(v@, k));
    out
}

/// A search in the graph that visits only nodes that count may give these.
pub open spec fn visits<S: Fn(&RoaringBitmap, usize) -> Result<Vec<(u64, u32)>, IndexError>>(
    visit: S,
    f: RoaringBitmap,
    k: usize,
    v: Seq<(u64, u32)>,
) -> bool {
    exists|w: Vec<(u64, u32)>| w@ == v && #[trigger]
        call_ensures(visit, (&f, k), Ok::<Vec<(u64, u32)>, IndexError>(w))
}

impl QueryPlanner {
    /// A planner that changes from one way to another where planners do.
    pub fn new() -> (r: Self)
        ensures
            r.config == default_config(),
    {
        QueryPlanner { config: PlannerConfig::default() }
    }

    /// A planner that changes from one way to another as it is told.
    pub fn with_config(config: PlannerConfig) -> (r: Self)
        ensures
            r.config == config,
    {
        QueryPlanner { config }
    }

    /// Chooses how a search is carried out.
    pub fn plan(&self, query: &VectorQuery, stats: &ShardStats) -> (r: ExecutionStrategy)
        ensures
            r == strategy(self.config, *query, *stats),
    {
        if stats.row_count <= self.config.bruteforce_threshold {
            return ExecutionStrategy::BruteForceScan;
        }
        if stats.memory_bytes > self.config.memory_threshold_bytes && stats.has_disk_index {
            return ExecutionStrategy::OutofCoreVamana;
        }
        match &query.filter {
            Some(f) => {
                let share = stats.estimate_selectivity(f);
                if share.is_less(&self.config.prefilter_selectivity_threshold) {
                    ExecutionStrategy::PrefilterGraph
                } else {
                    ExecutionStrategy::PostfilterGraph
                }
            },
            None => ExecutionStrategy::InMemoryHnsw,
        }
    }

    /// Compares every row with the query; `dist` says how far the `i`th is.
    pub fn execute_bruteforce<D: Fn(u64) -> u32>(
        &self,
        ids: &[u64],
        dist: &D,
        query: &VectorQuery,
    ) -> (r: Vec<(u64, u32)>)
        requires
            measure::measures(*dist),
        ensures
            r@ == nearest(*query, ids@, measure::ranks(*dist)),
    {
        let ghost rank = measure::ranks(*dist);
        proof {
            measure::lemma_gauges(*dist);
        }
        let mut all: Vec<(u64, u32)> = Vec::new();
        let mut i: usize = 0;
        while i < ids.len()
            invariant
                i <= ids@.len(),
                measure::gauges(*dist, rank),
                all@ == passing(query.filter, measured(ids@.take(i as int), rank)),
            decreases ids@.len() - i,
        {
            let ghost now = measured(ids@.take(i + 1), rank);
            assert(now.drop_last() =~= measured(ids@.take(i as int), rank));
            if does_pass(&query.filter, ids[i]) {
                let d: u32 = measure::ask(dist, i as u64, Ghost(rank));
                all.push((ids[i], d));
            }
            i = i + 1;
        }
        assert(ids@.take(i as int) =~= ids@);
        let near = apply_radius(all, query.radius);
        cut_hits(sort_hits(near), query.k)
    }

    /// Searches the layered graph; where only some nodes count, `visit` searches
    /// it so that only those are visited.
    pub fn execute_prefilter_hnsw<D, S>(
        &self,
        hnsw: &HnswIndex,
        dist: &D,
        visit: &S,
        query: &VectorQuery,
    ) -> (r: Result<Vec<(u64, u32)>, IndexError>) where
        D: Fn(u64) -> u32,
        S: Fn(&RoaringBitmap, usize) -> Result<Vec<(u64, u32)>, IndexError>,

        requires
            measure::measures(*dist),
            forall|f: &RoaringBitmap, k: usize| #[trigger] call_requires(*visit, (f, k)),
        ensures
            query.filter is None && query.len != hnsw@.dim ==> r == Err::<
                Vec<(u64, u32)>,
                IndexError,
            >(IndexError::DimensionMismatch { expected: hnsw@.dim, actual: query.len }),
            query.filter is None && query.len == hnsw@.dim ==> (r matches Ok(v) && v@ == in_range(
                query.radius,
                hnsw::answer(hnsw@, measure::ranks(*dist), query.k),
            )),
            query.filter matches Some(f) ==> match r {
                Ok(v) => exists|all: Seq<(u64, u32)>| #[trigger]
                    visits(*visit, f, query.k, all) && v@ == in_range(query.radius, all),
                Err(e) => call_ensures(
                    *visit,
                    (&f, query.k),
                    Err::<Vec<(u64, u32)>, IndexError>(e),
                ),
            },
    {
        let raw = match &query.filter {
            Some(f) => match visit(f, query.k) {
                Ok(v) => {
                    assert(visits(*visit, *f, query.k, v@));
                    v
                },
                Err(e) => return Err(e),
            },
            None => match hnsw.search_knn(query.len, dist, query.k) {
                Ok(v) => v,
                Err(e) => return Err(e),
            },
        };
        Ok(apply_radius(raw, query.radius))
    }

    /// Finds more nodes than asked for in the layered graph, about `wanted`, and
    /// keeps those that count.
    pub fn execute_postfilter_hnsw<D: Fn(u64) -> u32>(
        &self,
        hnsw: &HnswIndex,
        dist: &D,
        query: &VectorQuery,
        stats: &ShardStats,
        wanted: usize,
    ) -> (r: Result<Vec<(u64, u32)>, IndexError>)
        requires
            measure::measures(*dist),
        ensures
            query.len != hnsw@.dim ==> r == Err::<Vec<(u64, u32)>, IndexError>(
                IndexError::DimensionMismatch { expected: hnsw@.dim, actual: query.len },
            ),
            query.len == hnsw@.dim ==> ({
                let all = hnsw::answer(
                    hnsw@,
                    measure::ranks(*dist),
                    overfetch(query.k, wanted, stats.row_count),
                );
                r matches Ok(v) && v@ == cut(
                    in_range(query.radius, passing(query.filter, all)),
                    query.k,
                )
            }),
    {
        let more: usize = if wanted > query.k {
            wanted
        } else {
            query.k
        };
        let k: usize = if more < stats.row_count {
            more
        } else {
            stats.row_count
        };
        let raw = match hnsw.search_knn(query.len, dist, k) {
            Ok(v) => v,
            Err(e) => return Err(e),
        };
        let kept = keep_passing(&query.filter, raw);
        Ok(cut_hits(apply_radius(kept, query.radius), query.k))
    }

    /// Searches the layered graph from a learned node on; where only some nodes
    /// count, `visit` searches it so that only those are visited.
    pub fn execute_learned_hnsw<D, L, S>(
        &self,
        index: &HnswWithLearnedEntry,
        dist: &D,
        short: &L,
        threshold: u32,
        visit: &S,
        query: &VectorQuery,
    ) -> (r: Result<Vec<(u64, u32)>, IndexError>) where
        D: Fn(u64) -> u32,
        L: Fn(u64) -> u32,
        S: Fn(&RoaringBitmap, usize) -> Result<Vec<(u64, u32)>, IndexError>,

        requires
            measure::measures(*dist),
            measure::measures(*short),
            forall|f: &RoaringBitmap, k: usize| #[trigger] call_requires(*visit, (f, k)),
        ensures
            query.filter is None && query.len != index.inner@.dim ==> r == Err::<
                Vec<(u64, u32)>,
                IndexError,
            >(IndexError::DimensionMismatch { expected: index.inner@.dim, actual: query.len }),
            query.filter is None && query.len == index.inner@.dim ==> (r matches Ok(v) && exists|
                all: Seq<(u64, u32)>,
            | #[trigger]
                learned_answer(
                    *index,
                    measure::ranks(*dist),
                    measure::ranks(*short),
                    threshold,
                    query.k,
                    all,
                ) && v@ == in_range(query.radius, all)),
            query.filter matches Some(f) ==> match r {
                Ok(v) => exists|all: Seq<(u64, u32)>| #[trigger]
                    visits(*visit, f, query.k, all) && v@ == in_range(query.radius, all),
                Err(e) => call_ensures(
                    *visit,
                    (&f, query.k),
                    Err::<Vec<(u64, u32)>, IndexError>(e),
                ),
            },
    {
        let raw = match &query.filter {
            Some(f) => match visit(f, query.k) {
                Ok(v) => {
                    assert(visits(*visit, *f, query.k, v@));
                    v
                },
                Err(e) => return Err(e),
            },
            None => match index.search_knn(query.len, dist, short, threshold, query.k) {
                Ok(v) => {
                    assert(learned_answer(
                        *index,
                        measure::ranks(*dist),
                        measure::ranks(*short),
                        threshold,
                        query.k,
                        v@,
                    ));
                    v
                },
                Err(e) => return Err(e),
            },
        };
        Ok(apply_radius(raw, query.radius))
    }

    /// What is kept of what a search on disk found.
    pub fn execute_vamana_disk(&self, found: Vec<(u64, u32)>, query: &VectorQuery) -> (r: Vec<
        (u64, u32),
    >)
        ensures
            r@ == in_range(query.radius, passing(query.filter, found@)),
    {
        let kept = keep_passing(&query.filter, found);
        apply_radius(kept, query.radius)
    }
}

/// What a search in the layered graph from a learned node on gives.
pub open spec fn learned_answer(
    index: HnswWithLearnedEntry,
    rank: spec_fn(u64) -> u32,
    short: spec_fn(u64) -> u32,
    threshold: u32,
    k: usize,
    v: Seq<(u64, u32)>,
) -> bool {
    exists|p: Option<(u64, usize)>| #[trigger]
        learned::predicted(index.entry.training_data@, short, threshold, p) && v == learned::answer(
            index.inner@,
            rank,
            k,
            p,
        )
}

} // verus!
