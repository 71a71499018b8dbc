//! A search that begins where an earlier vector like the query ended up.
//!
//! Each vector is also kept in a shorter form. A query is compared with the
//! short forms, and where one is near enough, the search in the graph begins at
//! the node it belongs to.
use crate::index::error::{AnnIndexStats, IndexError};
use crate::index::hnsw;
use crate::index::hnsw::{HnswConfig, HnswIndex};
use crate::index::measure;
use vstd::prelude::*;

verus! {

/// The rank of the greatest distance that is a number.
pub const FARTHEST: u32 = 0x7F7F_FFFF;

/// The nodes that were inserted, each with the layer up to which it reaches.
/// Their short forms stay with the caller, in the same order.
pub struct LearnedEntryPoint {
    pub training_data: Vec<(u64, usize)>,
}

/// A rank, but not beyond the greatest distance that is a number.
pub open spec fn bounded(rank: u32) -> u32 {
    if rank < FARTHEST {
        rank
    } else {
        FARTHEST
    }
}

/// The `i`th short form is the nearest to the query; of several the first.
pub open spec fn is_nearest(rank: spec_fn(u64) -> u32, n: int, i: int) -> bool {
    &&& 0 <= i < n
    &&& forall|j: int|
        0 <= j < n ==> bounded(rank(i as u64)) <= bounded(#[trigger] rank(j as u64))
    &&& forall|j: int|
        0 <= j < i ==> bounded(rank(i as u64)) < bounded(#[trigger] rank(j as u64))
}

/// Where a search is to begin: at the node whose short form is nearest, unless
/// that is farther than `threshold`.
pub open spec fn predicted(
    data: Seq<(u64, usize)>,
    rank: spec_fn(u64) -> u32,
    threshold: u32,
    r: Option<(u64, usize)>,
) -> bool {
    match r {
        Some(e) => exists|i: int| #[trigger]
            is_nearest(rank, data.len() as int, i) && bounded(rank(i as u64)) <= threshold && e
                == data[i],
        None => data.len() == 0 || forall|i: int|
            0 <= i < data.len() ==> bounded(#[trigger] rank(i as u64)) > threshold,
    }
}

impl LearnedEntryPoint {
    /// Nothing was inserted yet.
    pub fn new() -> (r: Self)
        ensures
            r.training_data@.len() == 0,
    {
        LearnedEntryPoint { training_data: Vec::new() }
    }

    /// Notes an inserted node.
    pub fn add_training_point(&mut self, node_id: u64, max_layer: usize)
        ensures
            final(self).training_data@ == old(self).training_data@.push((node_id, max_layer)),
    {
        self.training_data.push((node_id, max_layer));
    }

    /// How many nodes were noted.
    pub fn training_size(&self) -> (r: usize)
        ensures
            r == self.training_data@.len(),
    {
        self.training_data.len()
    }

    /// Where a search is to begin. `dist` says how far the `i`th short form is
    /// from that of the query.
    pub fn predict<D: Fn(u64) -> u32>(&self, dist: &D, threshold: u32) -> (r: Option<(u64, usize)>)
        requires
            measure::measures(*dist),
        ensures
            predicted(self.training_data@, measure::ranks(*dist), threshold, r),
    {
        let n: usize = self.training_data.len();
        if n == 0 {
            return None;
        }
        let ghost rank = measure::ranks(*dist);
        proof {
            measure::lemma_gauges(*dist);
        }
        let mut best: usize = 0;
        let mut best_rank: u32 = FARTHEST;
        let mut i: usize = 0;
        while i < n
            invariant
                i <= n,
                n == self.training_data@.len(),
                measure::gauges(*dist, rank),
                i == 0 ==> best == 0 && best_rank == FARTHEST,
                i > 0 ==> is_nearest(rank, i as int, best as int) && best_rank == bounded(
                    rank(best as u64),
                ),
            decreases n - i,
        {
            let d: u32 = measure::ask(dist, i as u64, Ghost(rank));
            if d < best_rank {
                best = i;
                best_rank = d;
            }
            i = i + 1;
        }
        if best_rank > threshold {
            return None;
        }
        assert(is_nearest(rank, n as int, best as int));
        Some(self.training_data[best])
    }
}

/// A graph whose searches begin where it was learned that they should.
pub struct HnswWithLearnedEntry {
    pub inner: HnswIndex,
    pub entry: LearnedEntryPoint,
}

impl HnswWithLearnedEntry {
    /// An empty index for vectors of `dim` numbers.
    pub fn new(dim: usize, config: HnswConfig) -> (r: Self)
        ensures
            r.inner@ == hnsw::empty(dim, config),
            r.inner@.wf(),
            r.entry.training_data@.len() == 0,
    {
        HnswWithLearnedEntry {
            inner: HnswIndex::new(dim, config),
            entry: LearnedEntryPoint::new(),
        }
    }

    /// Inserts a vector of `len` numbers, and notes where it ended up.
    pub fn insert<P: Fn(u64, u64) -> u32>(
        &mut self,
        id: u64,
        len: usize,
        level: usize,
        pair: &P,
    ) -> (r: Result<(), IndexError>)
        requires
            old(self).inner@.wf(),
            measure::measures_pairs(*pair),
            old(self).inner@.entry_layer < usize::MAX - 1,
        ensures
            final(self).inner@.wf(),
            len != old(self).inner@.dim ==> *final(self) == *old(self) && r == Err::<
                (),
                IndexError,
            >(IndexError::DimensionMismatch { expected: old(self).inner@.dim, actual: len }),
            len == old(self).inner@.dim ==> r is Ok && final(self).inner@ == hnsw::inserted(
                old(self).inner@,
                id,
                level,
                hnsw::pair_ranks(*pair),
            ) && final(self).entry.training_data@ == old(self).entry.training_data@.push(
                (
                    id,
                    if final(self).inner@.nodes.contains_key(id) {
                        final(self).inner@.nodes[id]
                    } else {
                        0
                    },
                ),
            ),
    {
        match self.inner.insert(id, len, level, pair) {
            Ok(()) => {},
            Err(e) => return Err(e),
        }
        let max_layer: usize = match self.inner.nodes.get(&id) {
            Some(l) => *l,
            None => 0,
        };
        self.entry.add_training_point(id, max_layer);
        Ok(())
    }

    /// Marks a node as deleted.
    pub fn delete(&mut self, id: u64) -> (r: Result<(), IndexError>)
        ensures
            final(self).entry == old(self).entry,
            old(self).inner@.wf() ==> final(self).inner@.wf(),
            if old(self).inner@.nodes.contains_key(id) || old(self).inner@.dead.contains(id) {
                r is Ok && final(self).inner@ == (hnsw::HnswView {
                    dead: old(self).inner@.dead.insert(id),
                    ..old(self).inner@
                })
            } else {
                *final(self) == *old(self) && r == Err::<(), IndexError>(IndexError::NotFound(id))
            },
    {
        self.inner.delete(id)
    }

    /// About the `k` nearest nodes of a query with `len` numbers. `short` says
    /// how far the `i`th short form is from that of the query.
    pub fn search_knn<D: Fn(u64) -> u32, S: Fn(u64) -> u32>(
        &self,
        len: usize,
        dist: &D,
        short: &S,
        threshold: u32,
        k: usize,
    ) -> (r: Result<Vec<(u64, u32)>, IndexError>)
        requires
            measure::measures(*dist),
            measure::measures(*short),
        ensures
            len != self.inner@.dim ==> r == Err::<Vec<(u64, u32)>, IndexError>(
                IndexError::DimensionMismatch { expected: self.inner@.dim, actual: len },
            ),
            len == self.inner@.dim ==> (r matches Ok(v) && exists|p: Option<(u64, usize)>|
                #[trigger] predicted(
                    self.entry.training_data@,
                    measure::ranks(*short),
                    threshold,
                    p,
                ) && v@ == answer(self.inner@, measure::ranks(*dist), k, p)),
    {
        let p = self.entry.predict(short, threshold);
        let r = match p {
            Some((id, layer)) => if self.inner.is_live(id) {
                self.inner.search_knn_with_entry(len, dist, k, id, layer)
            } else {
                self.inner.search_knn(len, dist, k)
            },
            None => self.inner.search_knn(len, dist, k),
        };
        assert(predicted(self.entry.training_data@, measure::ranks(*short), threshold, p));
        r
    }

    /// Those of the nearest nodes whose rank is at most `radius`.
    pub fn search_range<D: Fn(u64) -> u32>(&self, len: usize, dist: &D, radius: u32) -> (r: Result<
        Vec<(u64, u32)>,
        IndexError,
    >)
        requires
            measure::measures(*dist),
        ensures
            len != self.inner@.dim ==> r == Err::<Vec<(u64, u32)>, IndexError>(
                IndexError::DimensionMismatch { expected: self.inner@.dim, actual: len },
            ),
            len == self.inner@.dim ==> (r matches Ok(v) && v@ == hnsw::within(
                hnsw::answer(
                    self.inner@,
                    measure::ranks(*dist),
                    hnsw::range_width(self.inner@),
                ),
                radius,
            )),
    {
        self.inner.search_range(len, dist, radius)
    }

    /// What the index tells of itself; the short forms take `entry_bytes` bytes.
    pub fn stats(&self, entry_bytes: usize) -> (r: AnnIndexStats)
        ensures
            exists|n: nat| #[trigger]
                hnsw::have_edges(self.inner@.layers, n) && (self.inner@.nodes.len() * (4
                    * self.inner@.dim + 16) + 8 * n + entry_bytes <= usize::MAX ==> r.memory_bytes
                    == self.inner@.nodes.len() * (4 * self.inner@.dim + 16) + 8 * n + entry_bytes),
            r.num_vectors == if self.inner@.nodes.len() < self.inner@.dead.len() {
                0
            } else {
                self.inner@.nodes.len() - self.inner@.dead.len()
            },
            r.index_type@ == "hnsw-learned-entry"@,
    {
        let inner = self.inner.stats();
        let memory_bytes: usize = match inner.memory_bytes.checked_add(entry_bytes) {
            Some(n) => n,
            None => usize::MAX,
        };
        AnnIndexStats {
            memory_bytes,
            num_vectors: inner.num_vectors,
            index_type: "hnsw-learned-entry".to_owned(),
        }
    }
}

/// What a search gives that begins where it is told to, if the node there was
/// not deleted, and where all searches begin otherwise.
pub open spec fn answer(
    g: hnsw::HnswView,
    rank: spec_fn(u64) -> u32,
    k: usize,
    p: Option<(u64, usize)>,
) -> Seq<(u64, u32)> {
    if p is Some && g.is_live(p.unwrap().0) {
        hnsw::knn(
            g,
            rank,
            k,
            p.unwrap().0,
            hnsw::lesser(p.unwrap().1 as int, g.entry_layer as int),
        )
    } else {
        hnsw::answer(g, rank, k)
    }
}

} // verus!
