//! A hierarchical navigable small world: a graph in layers, the upper ones
//! sparse, on which a search comes near to a query fast.
use crate::index::beam;
use crate::index::beam::copy_numbers;
use crate::index::error::{AnnIndexStats, IndexError};
use crate::index::measure;
use crate::index::measure::{ask, ask_pair};
use crate::index::walk;
use crate::index::walk::Field;
use std::collections::{HashMap, HashSet};
use vstd::prelude::*;

verus! {

broadcast use vstd::std_specs::hash::group_hash_axioms;

/// How the graph is built and searched.
#[derive(Debug, Clone, Copy, PartialEq, Eq, Structural)]
pub struct HnswConfig {
    /// How many edges a node has at most on the upper layers.
    pub m: usize,
    /// How many edges a node has at most on the lowest layer.
    pub m0: usize,
    /// The width of the search that finds a new node's neighbours.
    pub ef_construction: usize,
    /// The width of the search for a query.
    pub ef_search: usize,
}

impl HnswConfig {
    /// A configuration with twice as many edges on the lowest layer.
    pub fn new(m: usize, ef_construction: usize, ef_search: usize) -> (r: Self)
        requires
            2 * m <= usize::MAX,
        ensures
            r == (HnswConfig { m, m0: (2 * m) as usize, ef_construction, ef_search }),
    {
        HnswConfig { m, m0: 2 * m, ef_construction, ef_search }
    }
}

impl Default for HnswConfig {
    fn default() -> (r: Self)
        ensures
            r == (HnswConfig { m: 16, m0: 32, ef_construction: 200, ef_search: 100 }),
    {
        HnswConfig::new(16, 200, 100)
    }
}

/// The graph. Vectors stay with the caller.
pub struct HnswIndex {
    pub config: HnswConfig,
    pub dim: usize,
    pub nodes: HashMap<u64, usize>,
    pub layers: Vec<HashMap<u64, Vec<u64>>>,
    pub entry_point: Option<u64>,
    pub entry_layer: usize,
    pub tombstones: HashSet<u64>,
}

/// The graph as a mathematical value: the nodes and the layer up to which each
/// reaches, the edges on each layer, where searches begin, and the nodes that
/// were deleted.
#[verifier::ext_equal]
pub struct HnswView {
    pub config: HnswConfig,
    pub dim: usize,
    pub nodes: Map<u64, usize>,
    pub layers: Seq<Map<u64, Seq<u64>>>,
    pub entry_point: Option<u64>,
    pub entry_layer: usize,
    pub dead: Set<u64>,
}

/// The edges of a layer.
pub open spec fn edge_map(m: Map<u64, Vec<u64>>) -> Map<u64, Seq<u64>> {
    m.map_values(|v: Vec<u64>| v@)
}

pub open spec fn layer_maps(v: Seq<HashMap<u64, Vec<u64>>>) -> Seq<Map<u64, Seq<u64>>> {
    v.map_values(|l: HashMap<u64, Vec<u64>>| edge_map(l@))
}

impl View for HnswIndex {
    type V = HnswView;

    open spec fn view(&self) -> HnswView {
        HnswView {
            config: self.config,
            dim: self.dim,
            nodes: self.nodes@,
            layers: layer_maps(self.layers@),
            entry_point: self.entry_point,
            entry_layer: self.entry_layer,
            dead: self.tombstones@,
        }
    }
}

impl HnswView {
    /// The node is there and was not deleted.
    pub open spec fn is_live(self, id: u64) -> bool {
        self.nodes.contains_key(id) && !self.dead.contains(id)
    }

    pub open spec fn live(self) -> Set<u64> {
        self.nodes.dom().difference(self.dead)
    }

    /// Where the edges of a node lead on a layer.
    pub open spec fn edges(self, layer: int, id: u64) -> Seq<u64> {
        if 0 <= layer < self.layers.len() && self.layers[layer].contains_key(id) {
            self.layers[layer][id]
        } else {
            Seq::empty()
        }
    }

    /// What a search on a layer sees.
    pub open spec fn field(self, rank: spec_fn(u64) -> u32, seeds: Seq<u64>, layer: int) -> Field {
        Field {
            rank,
            live: self.live(),
            edges: |id: u64| self.edges(layer, id),
            seeds,
        }
    }

    /// Searches begin on a layer that is there, and what was deleted is a node.
    pub open spec fn wf(self) -> bool {
        &&& self.entry_point is Some ==> self.entry_layer < self.layers.len()
        &&& self.dead.subset_of(self.nodes.dom())
    }
}

/// A graph without nodes.
pub open spec fn empty(dim: usize, config: HnswConfig) -> HnswView {
    HnswView {
        config,
        dim,
        nodes: Map::empty(),
        layers: Seq::empty(),
        entry_point: None,
        entry_layer: 0,
        dead: Set::empty(),
    }
}

impl HnswIndex {
    /// An empty graph for vectors of `dim` numbers.
    pub fn new(dim: usize, config: HnswConfig) -> (r: Self)
        ensures
            r@ == empty(dim, config),
            r@.wf(),
    {
        let r = HnswIndex {
            config,
            dim,
            nodes: HashMap::new(),
            layers: Vec::new(),
            entry_point: None,
            entry_layer: 0,
            tombstones: HashSet::new(),
        };
        assert(r@.layers =~= Seq::empty());
        r
    }

    /// Whether the node is there and was not deleted.
    pub fn is_live(&self, id: u64) -> (r: bool)
        ensures
            r == self@.is_live(id),
            r == self@.live().contains(id),
    {
        self.nodes.contains_key(&id) && !self.tombstones.contains(&id)
    }

    /// A copy of where the edges of a node lead on a layer.
    fn neighbours(&self, layer: usize, id: u64) -> (r: Vec<u64>)
        ensures
            r@ == self@.edges(layer as int, id),
    {
        if layer >= self.layers.len() {
            return Vec::new();
        }
        let map = &self.layers[layer];
        proof {
            assert(self@.layers[layer as int] == edge_map(map@));
        }
        match map.get(&id) {
            Some(v) => copy_numbers(v.as_slice()),
            None => Vec::new(),
        }
    }

    /// A search of width `ef` on one layer, from the given nodes on.
    fn search_layer_by<D: Fn(u64) -> u32>(
        &self,
        dist: &D,
        rank: Ghost<spec_fn(u64) -> u32>,
        entry_points: &[u64],
        ef: usize,
        layer: usize,
    ) -> (r: Vec<u64>)
        requires
            measure::gauges(*dist, rank@),
        ensures
            r@ == walk::found(self@.field(rank@, entry_points@, layer as int), ef as nat),
    {
        let ghost f = self@.field(rank@, entry_points@, layer as int);
        let live = |id: u64| -> (r: bool)
            ensures
                r == self@.live().contains(id),
            { self.is_live(id) };
        let edges = |id: u64| -> (r: Vec<u64>)
            ensures
                r@ == self@.edges(layer as int, id),
            { self.neighbours(layer, id) };
        beam::search(dist, &live, &edges, entry_points, ef, Ghost(f))
    }
}

impl HnswIndex {
    /// A search of width `ef` on one layer, from the given nodes on.
    pub fn search_layer<D: Fn(u64) -> u32>(
        &self,
        dist: &D,
        entry_points: &[u64],
        ef: usize,
        layer: usize,
    ) -> (r: Vec<u64>)
        requires
            measure::measures(*dist),
        ensures
            r@ == walk::found(
                self@.field(measure::ranks(*dist), entry_points@, layer as int),
                ef as nat,
            ),
    {
        proof {
            measure::lemma_gauges(*dist);
        }
        self.search_layer_by(dist, Ghost(measure::ranks(*dist)), entry_points, ef, layer)
    }
}

// ----------------------------------------------------------------------
// Choosing neighbours
// ----------------------------------------------------------------------
/// The nodes that are there and were not deleted, in their order.
pub open spec fn live_of(g: HnswView, ids: Seq<u64>) -> Seq<u64>
    decreases ids.len(),
{
    if ids.len() == 0 {
        Seq::empty()
    } else {
        let front = live_of(g, ids.drop_last());
        if g.is_live(ids.last()) {
            front.push(ids.last())
        } else {
            front
        }
    }
}

/// A node put in its place by its rank, behind its equals.
pub open spec fn insert_by_rank(s: Seq<u64>, rank: spec_fn(u64) -> u32, id: u64) -> Seq<u64>
    decreases s.len(),
{
    if s.len() > 0 && rank(id) < rank(s.last()) {
        insert_by_rank(s.drop_last(), rank, id).push(s.last())
    } else {
        s.push(id)
    }
}

/// Nodes by their rank; equals keep their order.
pub open spec fn ranked(s: Seq<u64>, rank: spec_fn(u64) -> u32) -> Seq<u64>
    decreases s.len(),
{
    if s.len() == 0 {
        Seq::empty()
    } else {
        insert_by_rank(ranked(s.drop_last(), rank), rank, s.last())
    }
}

/// The node is nearer to the query than to each of the chosen ones.
pub open spec fn useful(
    id: u64,
    chosen: Seq<u64>,
    rank: spec_fn(u64) -> u32,
    pair: spec_fn(u64, u64) -> u32,
) -> bool {
    forall|i: int| 0 <= i < chosen.len() ==> rank(id) < pair(id, #[trigger] chosen[i])
}

/// Nodes that were chosen, and those that were passed over.
#[verifier::ext_equal]
pub struct Picked {
    pub chosen: Seq<u64>,
    pub passed: Seq<u64>,
}

/// Goes through the first `n` nodes, until `m` are chosen: a useful one is
/// chosen, another is passed over.
pub open spec fn pick(
    s: Seq<u64>,
    n: int,
    m: nat,
    rank: spec_fn(u64) -> u32,
    pair: spec_fn(u64, u64) -> u32,
) -> Picked
    decreases n,
{
    if n <= 0 {
        Picked { chosen: Seq::empty(), passed: Seq::empty() }
    } else {
        let p = pick(s, n - 1, m, rank, pair);
        if p.chosen.len() >= m {
            p
        } else if useful(s[n - 1], p.chosen, rank, pair) {
            Picked { chosen: p.chosen.push(s[n - 1]), passed: p.passed }
        } else {
            Picked { chosen: p.chosen, passed: p.passed.push(s[n - 1]) }
        }
    }
}

/// The lesser of two.
pub open spec fn lesser(a: int, b: int) -> int {
    if a < b {
        a
    } else {
        b
    }
}

/// At most `m` neighbours from the candidates: the nearest that are not nearer
/// to one chosen before than to the query, and then those passed over, as far
/// as there is room.
pub open spec fn selected(
    g: HnswView,
    ids: Seq<u64>,
    m: nat,
    rank: spec_fn(u64) -> u32,
    pair: spec_fn(u64, u64) -> u32,
) -> Seq<u64> {
    let s = ranked(live_of(g, ids), rank);
    let p = pick(s, s.len() as int, m, rank, pair);
    p.chosen + p.passed.take(lesser(m - p.chosen.len(), p.passed.len() as int))
}

pub proof fn lemma_insert_by_rank(s: Seq<u64>, rank: spec_fn(u64) -> u32, id: u64, p: int)
    requires
        0 <= p <= s.len(),
        p > 0 ==> rank(s[p - 1]) <= rank(id),
        forall|i: int| p <= i < s.len() ==> rank(id) < rank(#[trigger] s[i]),
    ensures
        insert_by_rank(s, rank, id) == s.insert(p, id),
    decreases s.len(),
{
    if p < s.len() {
        assert(s.last() == s[s.len() - 1]);
        let front = s.drop_last();
        assert forall|i: int| p <= i < front.len() implies rank(id) < rank(#[trigger] front[i]) by {
            assert(front[i] == s[i]);
        }
        lemma_insert_by_rank(front, rank, id, p);
        assert(front.insert(p, id).push(s.last()) =~= s.insert(p, id));
    } else {
        assert(s.insert(p, id) =~= s.push(id));
    }
}

proof fn lemma_pick_len(
    s: Seq<u64>,
    n: int,
    m: nat,
    rank: spec_fn(u64) -> u32,
    pair: spec_fn(u64, u64) -> u32,
)
    ensures
        pick(s, n, m, rank, pair).chosen.len() <= m,
    decreases n,
{
    if n > 0 {
        lemma_pick_len(s, n - 1, m, rank, pair);
    }
}

/// Once `m` are chosen, no more are.
proof fn lemma_pick_full(
    s: Seq<u64>,
    n: int,
    k: int,
    m: nat,
    rank: spec_fn(u64) -> u32,
    pair: spec_fn(u64, u64) -> u32,
)
    requires
        n <= k,
        pick(s, n, m, rank, pair).chosen.len() >= m,
    ensures
        pick(s, k, m, rank, pair) == pick(s, n, m, rank, pair),
    decreases k - n,
{
    if n < k {
        lemma_pick_full(s, n, k - 1, m, rank, pair);
        if k <= 0 {
        }
    }
}

/// The ranks of the distances of pairs.
pub open spec fn pair_ranks<P: Fn(u64, u64) -> u32>(p: P) -> spec_fn(u64, u64) -> u32 {
    |x: u64, y: u64| measure::measure_pair(p, x, y)
}

/// The ranks of the distances from a node.
pub open spec fn rank_from(pair: spec_fn(u64, u64) -> u32, id: u64) -> spec_fn(u64) -> u32 {
    |x: u64| pair(id, x)
}

/// The ranks of the distances from a node.
pub open spec fn ranks_from<P: Fn(u64, u64) -> u32>(p: P, id: u64) -> spec_fn(u64) -> u32 {
    |x: u64| measure::measure_pair(p, id, x)
}

impl HnswIndex {
    /// Chooses at most `m_max` neighbours of the node from the candidates.
    pub fn select_neighbours_heuristic<P: Fn(u64, u64) -> u32>(
        &self,
        id: u64,
        candidates: &[u64],
        m_max: usize,
        pair: &P,
    ) -> (r: Vec<u64>)
        requires
            measure::measures_pairs(*pair),
        ensures
            r@ == selected(
                self@,
                candidates@,
                m_max as nat,
                ranks_from(*pair, id),
                pair_ranks(*pair),
            ),
            r@.len() <= m_max,
    {
        let ghost rank = ranks_from(*pair, id);
        let ghost pr = pair_ranks(*pair);
        let mut sorted: Vec<(u32, u64)> = Vec::new();
        let mut i: usize = 0;
        assert(candidates@.take(0) =~= Seq::empty());
        assert(second(sorted@) =~= Seq::empty());
        while i < candidates.len()
            invariant
                i <= candidates@.len(),
                measure::measures_pairs(*pair),
                rank == ranks_from(*pair, id),
                second(sorted@) == ranked(live_of(self@, candidates@.take(i as int)), rank),
                forall|k: int| 0 <= k < sorted@.len() ==> (#[trigger] sorted@[k]).0 == rank(sorted@[k].1),
            decreases candidates@.len() - i,
        {
            let c: u64 = candidates[i];
            let ghost live = live_of(self@, candidates@.take(i as int));
            proof {
                assert(candidates@.take(i + 1).drop_last() =~= candidates@.take(i as int));
                assert(candidates@.take(i + 1).last() == c);
            }
            if self.is_live(c) {
                let d: u32 = ask_pair(pair, id, c);
                let ghost before = second(sorted@);
                let mut p: usize = sorted.len();
                while p > 0 && d < sorted[p - 1].0
                    invariant
                        p <= sorted@.len(),
                        before == second(sorted@),
                        d == rank(c),
                        forall|k: int|
                            0 <= k < sorted@.len() ==> (#[trigger] sorted@[k]).0 == rank(sorted@[k].1),
                        forall|k: int| p <= k < before.len() ==> rank(c) < rank(#[trigger] before[k]),
                    decreases p,
                {
                    assert(before[p - 1] == sorted@[p - 1].1);
                    p = p - 1;
                }
                proof {
                    if p > 0 {
                        assert(before[p - 1] == sorted@[p - 1].1);
                    }
                    lemma_insert_by_rank(before, rank, c, p as int);
                    assert(live.push(c).drop_last() =~= live);
                }
                let ghost old_sorted = sorted@;
                sorted.insert(p, (d, c));
                proof {
                    assert(second(sorted@) =~= before.insert(p as int, c));
                    assert forall|k: int| 0 <= k < sorted@.len() implies (#[trigger] sorted@[k]).0
                        == rank(sorted@[k].1) by {
                        if k < p {
                            assert(sorted@[k] == old_sorted[k]);
                        } else if k > p {
                            assert(sorted@[k] == old_sorted[k - 1]);
                        }
                    }
                }
            }
            i = i + 1;
        }
        assert(candidates@.take(i as int) =~= candidates@);
        let ghost s = second(sorted@);
        let ghost m = m_max as nat;
        let mut result: Vec<u64> = Vec::new();
        let mut discarded: Vec<u64> = Vec::new();
        let mut n: usize = 0;
        while n < sorted.len() && result.len() < m_max
            invariant
                n <= sorted@.len(),
                s == second(sorted@),
                m == m_max,
                measure::measures_pairs(*pair),
                rank == ranks_from(*pair, id),
                pr == pair_ranks(*pair),
                forall|k: int| 0 <= k < sorted@.len() ==> (#[trigger] sorted@[k]).0 == rank(sorted@[k].1),
                (Picked { chosen: result@, passed: discarded@ }) == pick(s, n as int, m, rank, pr),
            decreases sorted@.len() - n,
        {
            let (d, c) = sorted[n];
            assert(s[n as int] == c);
            let mut good: bool = true;
            let mut j: usize = 0;
            while j < result.len() && good
                invariant
                    j <= result@.len(),
                    d == rank(c),
                    measure::measures_pairs(*pair),
                    pr == pair_ranks(*pair),
                    good == (forall|k: int| 0 <= k < j ==> rank(c) < pr(c, #[trigger] result@[k])),
                decreases result@.len() - j,
            {
                if d >= ask_pair(pair, c, result[j]) {
                    assert(!(rank(c) < pr(c, result@[j as int])));
                    good = false;
                }
                j = j + 1;
            }
            assert(good == useful(c, result@, rank, pr));
            if good {
                result.push(c);
            } else {
                discarded.push(c);
            }
            n = n + 1;
        }
        let ghost p = pick(s, s.len() as int, m, rank, pr);
        proof {
            lemma_pick_len(s, n as int, m, rank, pr);
            if n < s.len() {
                lemma_pick_full(s, n as int, s.len() as int, m, rank, pr);
            }
            assert(p.chosen == result@ && p.passed == discarded@);
            assert(p.chosen + p.passed.take(0) =~= result@);
        }
        let mut j: usize = 0;
        while j < discarded.len() && result.len() < m_max
            invariant
                j <= discarded@.len(),
                p.passed == discarded@,
                p.chosen.len() <= m_max,
                result@ == p.chosen + p.passed.take(j as int),
                result@.len() <= m_max,
            decreases discarded@.len() - j,
        {
            result.push(discarded[j]);
            assert(p.passed.take(j + 1) =~= p.passed.take(j as int).push(p.passed[j as int]));
            assert(result@ =~= p.chosen + p.passed.take(j + 1));
            j = j + 1;
        }
        assert(j == lesser(m - p.chosen.len(), p.passed.len() as int));
        result
    }
}

/// The nodes of pairs of ranks and nodes.
pub open spec fn second(v: Seq<(u32, u64)>) -> Seq<u64> {
    v.map_values(|e: (u32, u64)| e.1)
}

// ----------------------------------------------------------------------
// Searching
// ----------------------------------------------------------------------
/// Where a search from `from` on comes to that goes down the layers from `top` to
/// `bottom`, on each to the nearest node that it finds.
pub open spec fn descended(
    g: HnswView,
    rank: spec_fn(u64) -> u32,
    from: u64,
    top: int,
    bottom: int,
) -> u64
    decreases top - bottom + 1,
{
    if top < bottom {
        from
    } else {
        let w = walk::found(g.field(rank, seq![from], top), 1);
        descended(
            g,
            rank,
            if w.len() > 0 {
                w[0]
            } else {
                from
            },
            top - 1,
            bottom,
        )
    }
}

/// The width of a search for `k` neighbours.
pub open spec fn search_width(g: HnswView, k: usize) -> nat {
    if g.config.ef_search == 0 && k == 0 {
        1
    } else if g.config.ef_search < k {
        k as nat
    } else {
        g.config.ef_search as nat
    }
}

/// The nodes with their ranks.
pub open spec fn with_ranks(ids: Seq<u64>, rank: spec_fn(u64) -> u32) -> Seq<(u64, u32)> {
    ids.map_values(|id: u64| (id, rank(id)))
}

/// The nodes that a search for `k` neighbours finds on the lowest layer, which begins
/// at `from` on layer `top`.
pub open spec fn nearby(
    g: HnswView,
    rank: spec_fn(u64) -> u32,
    k: usize,
    from: u64,
    top: int,
) -> Seq<u64> {
    let ep = descended(g, rank, from, top, 1);
    walk::found(g.field(rank, seq![ep], 0), search_width(g, k))
}

/// The `k` nearest nodes that a search finds which begins at `from` on layer
/// `top`.
pub open spec fn knn(
    g: HnswView,
    rank: spec_fn(u64) -> u32,
    k: usize,
    from: u64,
    top: int,
) -> Seq<(u64, u32)> {
    let w = nearby(g, rank, k, from, top);
    with_ranks(w.take(lesser(k as int, w.len() as int)), rank)
}

/// The `k` nearest nodes that a search of the graph finds: none where it has no nodes.
pub open spec fn answer(g: HnswView, rank: spec_fn(u64) -> u32, k: usize) -> Seq<(u64, u32)> {
    match g.entry_point {
        Some(ep) => knn(g, rank, k, ep, g.entry_layer as int),
        None => Seq::empty(),
    }
}

/// What a search finds counts: it is there, was not deleted, and comes with the rank
/// of its distance, each node once, the nearest first, and no more than `k`.
pub proof fn lemma_found_are_live(
    g: HnswView,
    rank: spec_fn(u64) -> u32,
    k: usize,
    from: u64,
    top: int,
)
    requires
        g.nodes.dom().finite(),
    ensures
        ({
            let r = knn(g, rank, k, from, top);
            &&& r.len() <= k
            &&& forall|i: int|
                0 <= i < r.len() ==> g.nodes.contains_key((#[trigger] r[i]).0)
                    && !g.dead.contains(r[i].0) && r[i].1 == rank(r[i].0)
            &&& forall|i: int, j: int|
                0 <= i < j < r.len() ==> (#[trigger] r[i]).0 != (#[trigger] r[j]).0 && r[i].1
                    <= r[j].1
        }),
{
    let w = nearby(g, rank, k, from, top);
    let r = knn(g, rank, k, from, top);
    let f = g.field(rank, seq![descended(g, rank, from, top, 1)], 0);
    walk::lemma_found_is_beam(f, walk::one_by_one(search_width(g, k)));
    let n = lesser(k as int, w.len() as int);
    assert(0 <= n <= w.len() && r.len() == n);
    assert forall|i: int| 0 <= i < r.len() implies g.live().contains(w[i]) && #[trigger] r[i] == (
        w[i],
        rank(w[i]),
    ) by {
        assert(f.live.contains(w[i]));
    }
}

impl HnswIndex {
    /// Goes down the layers to the nearest node.
    fn descend<D: Fn(u64) -> u32>(
        &self,
        dist: &D,
        rank: Ghost<spec_fn(u64) -> u32>,
        from: u64,
        top: usize,
        bottom: usize,
    ) -> (r: u64)
        requires
            measure::gauges(*dist, rank@),
            bottom > 0,
        ensures
            r == descended(self@, rank@, from, top as int, bottom as int),
    {
        let mut ep: u64 = from;
        let mut lc: usize = top;
        while lc >= bottom
            invariant
                measure::gauges(*dist, rank@),
                bottom > 0,
                descended(self@, rank@, ep, lc as int, bottom as int) == descended(
                    self@,
                    rank@,
                    from,
                    top as int,
                    bottom as int,
                ),
            decreases lc,
        {
            let mut start: Vec<u64> = Vec::new();
            start.push(ep);
            assert(start@ =~= seq![ep]);
            let w = self.search_layer_by(dist, rank, start.as_slice(), 1, lc);
            if w.len() > 0 {
                ep = w[0];
            }
            lc = lc - 1;
        }
        ep
    }

    /// The `k` nearest nodes of a search that begins at `from` on layer `top`.
    fn search_from<D: Fn(u64) -> u32>(
        &self,
        dist: &D,
        k: usize,
        from: u64,
        top: usize,
    ) -> (r: Vec<(u64, u32)>)
        requires
            measure::measures(*dist),
        ensures
            r@ == knn(self@, measure::ranks(*dist), k, from, top as int),
    {
        let ghost rank = measure::ranks(*dist);
        proof {
            measure::lemma_gauges(*dist);
        }
        let ep: u64 = self.descend(dist, Ghost(rank), from, top, 1);
        let mut ef: usize = if self.config.ef_search < k {
            k
        } else {
            self.config.ef_search
        };
        if ef == 0 {
            ef = 1;
        }
        let mut start: Vec<u64> = Vec::new();
        start.push(ep);
        assert(start@ =~= seq![ep]);
        let w = self.search_layer_by(dist, Ghost(rank), start.as_slice(), ef, 0);
        let mut r: Vec<(u64, u32)> = Vec::new();
        let mut i: usize = 0;
        while i < w.len() && i < k
            invariant
                i <= w@.len(),
                i <= k,
                measure::gauges(*dist, rank),
                r@.len() == i,
                forall|j: int| 0 <= j < i ==> #[trigger] r@[j] == (w@[j], rank(w@[j])),
            decreases w@.len() - i,
        {
            let id: u64 = w[i];
            r.push((id, ask(dist, id, Ghost(rank))));
            i = i + 1;
        }
        proof {
            assert(r@ =~= with_ranks(w@.take(lesser(k as int, w@.len() as int)), rank));
        }
        r
    }

    /// A query must have as many numbers as the vectors have.
    pub fn check_dim(&self, len: usize) -> (r: Result<(), IndexError>)
        ensures
            len == self@.dim ==> r is Ok,
            len != self@.dim ==> r == Err::<(), IndexError>(
                IndexError::DimensionMismatch { expected: self@.dim, actual: len },
            ),
    {
        if len != self.dim {
            return Err(IndexError::DimensionMismatch { expected: self.dim, actual: len });
        }
        Ok(())
    }

    /// About the `k` nearest nodes of a query with `len` numbers, with their
    /// ranks.
    pub fn search_knn<D: Fn(u64) -> u32>(&self, len: usize, dist: &D, k: usize) -> (r: Result<
        Vec<(u64, u32)>,
        IndexError,
    >)
        requires
            measure::measures(*dist),
        ensures
            len != self@.dim ==> r == Err::<Vec<(u64, u32)>, IndexError>(
                IndexError::DimensionMismatch { expected: self@.dim, actual: len },
            ),
            len == self@.dim ==> (r matches Ok(v) && v@ == answer(
                self@,
                measure::ranks(*dist),
                k,
            )),
    {
        if len != self.dim {
            return Err(IndexError::DimensionMismatch { expected: self.dim, actual: len });
        }
        match self.entry_point {
            Some(ep) => Ok(self.search_from(dist, k, ep, self.entry_layer)),
            None => Ok(Vec::new()),
        }
    }

    /// The same, but beginning at a given node and layer.
    pub fn search_knn_with_entry<D: Fn(u64) -> u32>(
        &self,
        len: usize,
        dist: &D,
        k: usize,
        start_id: u64,
        start_layer: usize,
    ) -> (r: Result<Vec<(u64, u32)>, IndexError>)
        requires
            measure::measures(*dist),
        ensures
            len != self@.dim ==> r == Err::<Vec<(u64, u32)>, IndexError>(
                IndexError::DimensionMismatch { expected: self@.dim, actual: len },
            ),
            len == self@.dim ==> (r matches Ok(v) && v@ == knn(
                self@,
                measure::ranks(*dist),
                k,
                start_id,
                lesser(start_layer as int, self@.entry_layer as int),
            )),
    {
        if len != self.dim {
            return Err(IndexError::DimensionMismatch { expected: self.dim, actual: len });
        }
        let top: usize = if start_layer < self.entry_layer {
            start_layer
        } else {
            self.entry_layer
        };
        Ok(self.search_from(dist, k, start_id, top))
    }
}

// ----------------------------------------------------------------------
// Changing the graph
// ----------------------------------------------------------------------
/// The edge from a neighbour back to the new node; a neighbour that then has
/// more than `m` edges keeps the best.
pub open spec fn back_link(
    g: HnswView,
    layer: Map<u64, Seq<u64>>,
    id: u64,
    nb: u64,
    m: nat,
    pair: spec_fn(u64, u64) -> u32,
) -> Map<u64, Seq<u64>> {
    let edges = (if layer.contains_key(nb) {
        layer[nb]
    } else {
        Seq::empty()
    }).push(id);
    if edges.len() > m {
        layer.insert(nb, selected(g, edges, m, rank_from(pair, nb), pair))
    } else {
        layer.insert(nb, edges)
    }
}

/// A layer on which the new node has its edges, and the first `n` of its
/// neighbours have theirs back.
pub open spec fn linked(
    g: HnswView,
    layer: Map<u64, Seq<u64>>,
    id: u64,
    nbs: Seq<u64>,
    n: int,
    m: nat,
    pair: spec_fn(u64, u64) -> u32,
) -> Map<u64, Seq<u64>>
    decreases n,
{
    if n <= 0 {
        layer.insert(id, nbs)
    } else {
        back_link(g, linked(g, layer, id, nbs, n - 1, m, pair), id, nbs[n - 1], m, pair)
    }
}

/// How many edges a node has at most on a layer.
pub open spec fn edge_limit(g: HnswView, layer: int) -> nat {
    if layer == 0 {
        g.config.m0 as nat
    } else {
        g.config.m as nat
    }
}

/// The width of the search for a new node's neighbours.
pub open spec fn build_width(g: HnswView) -> nat {
    if g.config.ef_construction == 0 {
        1
    } else {
        g.config.ef_construction as nat
    }
}

/// The graph with the new node's edges on one layer, among the nodes found.
pub open spec fn joined(
    g: HnswView,
    id: u64,
    layer: int,
    found: Seq<u64>,
    pair: spec_fn(u64, u64) -> u32,
) -> HnswView {
    let m = edge_limit(g, layer);
    let nbs = selected(g, found, m, rank_from(pair, id), pair);
    HnswView {
        layers: g.layers.update(
            layer,
            linked(g, g.layers[layer], id, nbs, nbs.len() as int, m, pair),
        ),
        ..g
    }
}

/// The graph with the new node joined to it on the layers from `layer` down: on each
/// a search begins at what the one above has found.
pub open spec fn connected(
    g: HnswView,
    id: u64,
    layer: int,
    seeds: Seq<u64>,
    pair: spec_fn(u64, u64) -> u32,
) -> HnswView
    decreases layer + 1,
{
    if layer < 0 {
        g
    } else {
        let w = walk::found(g.field(rank_from(pair, id), seeds, layer), build_width(g));
        connected(joined(g, id, layer, w, pair), id, layer - 1, w, pair)
    }
}

/// Layers on which the node has no edges yet.
pub open spec fn with_node(
    layers: Seq<Map<u64, Seq<u64>>>,
    id: u64,
    from: int,
    to: int,
) -> Seq<Map<u64, Seq<u64>>> {
    Seq::new(
        layers.len(),
        |l: int|
            if from <= l <= to {
                layers[l].insert(id, Seq::empty())
            } else {
                layers[l]
            },
    )
}

/// The layer up to which a new node reaches: at most one above the others.
pub open spec fn capped(g: HnswView, level: usize) -> int {
    lesser(level as int, g.entry_layer + 1)
}

/// Enough layers.
pub open spec fn grown(layers: Seq<Map<u64, Seq<u64>>>, n: int) -> Seq<Map<u64, Seq<u64>>> {
    if layers.len() >= n {
        layers
    } else {
        layers + Seq::new((n - layers.len()) as nat, |i: int| Map::<u64, Seq<u64>>::empty())
    }
}

/// The graph that knows the new node, before it has edges.
pub open spec fn added(g: HnswView, id: u64, top: int) -> HnswView {
    HnswView {
        dead: g.dead.remove(id),
        nodes: g.nodes.insert(id, top as usize),
        layers: grown(g.layers, top + 1),
        ..g
    }
}

/// The graph where searches begin at the node, if it reaches higher than the
/// others.
pub open spec fn promoted(g: HnswView, id: u64, top: int) -> HnswView {
    if top > g.entry_layer {
        HnswView {
            layers: with_node(g.layers, id, g.entry_layer + 1, top),
            entry_point: Some(id),
            entry_layer: top as usize,
            ..g
        }
    } else {
        g
    }
}

/// The graph after a node was inserted that was to reach up to `level`.
pub open spec fn inserted(
    g: HnswView,
    id: u64,
    level: usize,
    pair: spec_fn(u64, u64) -> u32,
) -> HnswView {
    let top = capped(g, level);
    let a = added(g, id, top);
    match g.entry_point {
        None => HnswView {
            layers: with_node(a.layers, id, 0, top),
            entry_point: Some(id),
            entry_layer: top as usize,
            ..a
        },
        Some(ep) => {
            let near = descended(a, rank_from(pair, id), ep, g.entry_layer as int, top + 1);
            let start = lesser(top, g.entry_layer as int);
            promoted(connected(a, id, start, seq![near], pair), id, top)
        },
    }
}

impl HnswIndex {
    /// Sets the edges of a node on a layer.
    fn set_edges(&mut self, layer: usize, id: u64, edges: Vec<u64>)
        requires
            layer < old(self)@.layers.len(),
        ensures
            final(self)@ == (HnswView {
                layers: old(self)@.layers.update(
                    layer as int,
                    old(self)@.layers[layer as int].insert(id, edges@),
                ),
                ..old(self)@
            }),
    {
        let ghost before = self@;
        let ghost maps = self.layers@;
        self.layers[layer].insert(id, edges);
        proof {
            let now = before.layers[layer as int].insert(id, edges@);
            assert(edge_map(self.layers@[layer as int]@) =~= now);
            assert(self@.layers =~= before.layers.update(layer as int, now));
        }
    }

    /// Gives a neighbour its edge back to the new node.
    fn link_back<P: Fn(u64, u64) -> u32>(
        &mut self,
        layer: usize,
        id: u64,
        nb: u64,
        m: usize,
        pair: &P,
    )
        requires
            measure::measures_pairs(*pair),
            layer < old(self)@.layers.len(),
        ensures
            final(self)@ == (HnswView {
                layers: old(self)@.layers.update(
                    layer as int,
                    back_link(
                        old(self)@,
                        old(self)@.layers[layer as int],
                        id,
                        nb,
                        m as nat,
                        pair_ranks(*pair),
                    ),
                ),
                ..old(self)@
            }),
    {
        let ghost g = self@;
        let mut edges = self.neighbours(layer, nb);
        edges.push(id);
        if edges.len() > m {
            let kept = self.select_neighbours_heuristic(nb, edges.as_slice(), m, pair);
            proof {
                assert(ranks_from(*pair, nb) =~= rank_from(pair_ranks(*pair), nb));
            }
            self.set_edges(layer, nb, kept);
        } else {
            self.set_edges(layer, nb, edges);
        }
    }

    /// Joins the new node to the graph on one layer.
    fn join<P: Fn(u64, u64) -> u32>(&mut self, id: u64, layer: usize, found: &[u64], pair: &P)
        requires
            measure::measures_pairs(*pair),
            layer < old(self)@.layers.len(),
        ensures
            final(self)@ == joined(old(self)@, id, layer as int, found@, pair_ranks(*pair)),
    {
        let ghost g = self@;
        let ghost pr = pair_ranks(*pair);
        let ghost first = g.layers[layer as int];
        let m: usize = if layer == 0 {
            self.config.m0
        } else {
            self.config.m
        };
        let nbs = self.select_neighbours_heuristic(id, found, m, pair);
        proof {
            assert(ranks_from(*pair, id) =~= rank_from(pr, id));
        }
        self.set_edges(layer, id, copy_numbers(nbs.as_slice()));
        let mut i: usize = 0;
        while i < nbs.len()
            invariant
                i <= nbs@.len(),
                measure::measures_pairs(*pair),
                pr == pair_ranks(*pair),
                layer < g.layers.len(),
                first == g.layers[layer as int],
                self@ == (HnswView {
                    layers: g.layers.update(
                        layer as int,
                        linked(g, first, id, nbs@, i as int, m as nat, pr),
                    ),
                    ..g
                }),
            decreases nbs@.len() - i,
        {
            let ghost before = self@;
            self.link_back(layer, id, nbs[i], m, pair);
            proof {
                lemma_back_link_frame(
                    before,
                    g,
                    before.layers[layer as int],
                    id,
                    nbs@[i as int],
                    m as nat,
                    pr,
                );
                assert(self@.layers =~= g.layers.update(
                    layer as int,
                    linked(g, first, id, nbs@, i + 1, m as nat, pr),
                ));
            }
            i = i + 1;
        }
    }
}

/// Which nodes are live does not hang on the edges.
proof fn lemma_live_frame(a: HnswView, b: HnswView, ids: Seq<u64>)
    requires
        a.nodes == b.nodes,
        a.dead == b.dead,
    ensures
        live_of(a, ids) == live_of(b, ids),
    decreases ids.len(),
{
    if ids.len() > 0 {
        lemma_live_frame(a, b, ids.drop_last());
    }
}

proof fn lemma_back_link_frame(
    a: HnswView,
    b: HnswView,
    layer: Map<u64, Seq<u64>>,
    id: u64,
    nb: u64,
    m: nat,
    pair: spec_fn(u64, u64) -> u32,
)
    requires
        a.nodes == b.nodes,
        a.dead == b.dead,
    ensures
        back_link(a, layer, id, nb, m, pair) == back_link(b, layer, id, nb, m, pair),
{
    let edges = (if layer.contains_key(nb) {
        layer[nb]
    } else {
        Seq::empty()
    }).push(id);
    lemma_live_frame(a, b, edges);
}

impl HnswIndex {
    /// Joins the new node to the graph on the layers from `layer` down.
    fn connect<P: Fn(u64, u64) -> u32>(&mut self, id: u64, layer: usize, near: u64, pair: &P)
        requires
            measure::measures_pairs(*pair),
            layer < old(self)@.layers.len(),
        ensures
            final(self)@ == connected(
                old(self)@,
                id,
                layer as int,
                seq![near],
                pair_ranks(*pair),
            ),
            final(self)@ == (HnswView { layers: final(self)@.layers, ..old(self)@ }),
            final(self)@.layers.len() == old(self)@.layers.len(),
    {
        let ghost g = self@;
        let ghost pr = pair_ranks(*pair);
        let ghost rank = rank_from(pr, id);
        let dist = |x: u64| -> (r: u32)
            ensures
                r == measure::measure_pair(*pair, id, x),
            { ask_pair(pair, id, x) };
        assert(measure::gauges(dist, rank));
        let ef: usize = if self.config.ef_construction == 0 {
            1
        } else {
            self.config.ef_construction
        };
        let mut seeds: Vec<u64> = Vec::new();
        seeds.push(near);
        assert(seeds@ =~= seq![near]);
        let count: usize = self.layers.len();
        assert(layer < count);
        let mut n: usize = layer + 1;
        while n > 0
            invariant
                measure::measures_pairs(*pair),
                pr == pair_ranks(*pair),
                rank == rank_from(pr, id),
                measure::gauges(dist, rank),
                n <= layer + 1,
                layer < g.layers.len(),
                ef == build_width(g),
                self@ == (HnswView { layers: self@.layers, ..g }),
                self@.layers.len() == g.layers.len(),
                connected(self@, id, n - 1, seeds@, pr) == connected(
                    g,
                    id,
                    layer as int,
                    seq![near],
                    pr,
                ),
            decreases n,
        {
            let lc: usize = n - 1;
            let w = self.search_layer_by(&dist, Ghost(rank), seeds.as_slice(), ef, lc);
            self.join(id, lc, w.as_slice(), pair);
            seeds = w;
            n = lc;
        }
    }

    /// Gives the node a place without edges on the layers from `from` to `to`.
    fn place_node(&mut self, id: u64, from: usize, to: usize)
        requires
            to < old(self)@.layers.len(),
            from <= to + 1,
        ensures
            final(self)@ == (HnswView {
                layers: with_node(old(self)@.layers, id, from as int, to as int),
                ..old(self)@
            }),
    {
        let ghost g = self@;
        let n: usize = self.layers.len();
        let mut l: usize = from;
        assert(with_node(g.layers, id, from as int, from - 1) =~= g.layers);
        while l <= to
            invariant
                from <= l <= to + 1,
                to < g.layers.len(),
                n == g.layers.len(),
                self@ == (HnswView {
                    layers: with_node(g.layers, id, from as int, l - 1),
                    ..g
                }),
            decreases to + 1 - l,
        {
            let none: Vec<u64> = Vec::new();
            self.set_edges(l, id, none);
            proof {
                assert(none@ =~= Seq::empty());
                assert(self@.layers =~= with_node(g.layers, id, from as int, l as int));
            }
            l = l + 1;
        }
    }

    /// Makes enough layers, and notes the node.
    fn add_node(&mut self, id: u64, top: usize)
        requires
            top < usize::MAX,
        ensures
            final(self)@ == added(old(self)@, id, top as int),
            final(self)@.layers.len() > top,
    {
        let ghost g = self@;
        self.tombstones.remove(&id);
        let ghost want = grown(g.layers, top + 1);
        while self.layers.len() <= top
            invariant
                g.layers.len() <= self@.layers.len(),
                self@.layers.len() <= want.len(),
                want == grown(g.layers, top + 1),
                self@ == (HnswView {
                    dead: g.dead.remove(id),
                    layers: want.take(self@.layers.len() as int),
                    ..g
                }),
            decreases top + 1 - self@.layers.len(),
        {
            let ghost before = self@.layers;
            let map: HashMap<u64, Vec<u64>> = HashMap::new();
            self.layers.push(map);
            proof {
                assert(edge_map(map@) =~= Map::<u64, Seq<u64>>::empty());
                assert(self@.layers =~= before.push(Map::empty()));
                assert(self@.layers =~= want.take(self@.layers.len() as int));
            }
        }
        assert(want.take(self@.layers.len() as int) =~= want);
        self.nodes.insert(id, top);
    }

    /// Inserts a vector of `len` numbers as node `id`, which is to reach up to
    /// `level`. `pair` says how far two nodes are from each other, the new one
    /// among them.
    pub fn insert<P: Fn(u64, u64) -> u32>(
        &mut self,
        id: u64,
        len: usize,
        level: usize,
        pair: &P,
    ) -> (r: Result<(), IndexError>)
        requires
            old(self)@.wf(),
            measure::measures_pairs(*pair),
            old(self)@.entry_layer < usize::MAX - 1,
        ensures
            final(self)@.wf(),
            len != old(self)@.dim ==> *final(self) == *old(self) && r == Err::<(), IndexError>(
                IndexError::DimensionMismatch { expected: old(self)@.dim, actual: len },
            ),
            len == old(self)@.dim ==> r is Ok && final(self)@ == inserted(
                old(self)@,
                id,
                level,
                pair_ranks(*pair),
            ),
    {
        if len != self.dim {
            return Err(IndexError::DimensionMismatch { expected: self.dim, actual: len });
        }
        let ghost g = self@;
        let ghost pr = pair_ranks(*pair);
        let top: usize = if level < self.entry_layer + 1 {
            level
        } else {
            self.entry_layer + 1
        };
        self.add_node(id, top);
        let ghost a = self@;
        match self.entry_point {
            None => {
                self.place_node(id, 0, top);
                self.entry_point = Some(id);
                self.entry_layer = top;
                Ok(())
            },
            Some(ep) => {
                let entry_layer: usize = self.entry_layer;
                let ghost rank = rank_from(pr, id);
                let dist = |x: u64| -> (r: u32)
                    ensures
                        r == measure::measure_pair(*pair, id, x),
                    { ask_pair(pair, id, x) };
                assert(measure::gauges(dist, rank));
                let near: u64 = self.descend(&dist, Ghost(rank), ep, entry_layer, top + 1);
                let start: usize = if top < entry_layer {
                    top
                } else {
                    entry_layer
                };
                self.connect(id, start, near, pair);
                let ghost c = self@;
                if top > entry_layer {
                    self.place_node(id, entry_layer + 1, top);
                    self.entry_point = Some(id);
                    self.entry_layer = top;
                }
                proof {
                    assert(self@ =~= promoted(c, id, top as int));
                }
                Ok(())
            },
        }
    }

    /// Marks a node as deleted.
    pub fn delete(&mut self, id: u64) -> (r: Result<(), IndexError>)
        ensures
            old(self)@.wf() ==> final(self)@.wf(),
            if old(self)@.nodes.contains_key(id) || old(self)@.dead.contains(id) {
                r is Ok && final(self)@ == (HnswView {
                    dead: old(self)@.dead.insert(id),
                    ..old(self)@
                })
            } else {
                *final(self) == *old(self) && r == Err::<(), IndexError>(IndexError::NotFound(id))
            },
    {
        if !self.nodes.contains_key(&id) && !self.tombstones.contains(&id) {
            return Err(IndexError::NotFound(id));
        }
        self.tombstones.insert(id);
        Ok(())
    }

    /// How many nodes there are that were not deleted.
    pub fn len(&self) -> (r: usize)
        ensures
            r == if self@.nodes.len() < self@.dead.len() {
                0
            } else {
                self@.nodes.len() - self@.dead.len()
            },
            self@.wf() ==> r == self@.live().len(),
    {
        proof {
            if self@.wf() {
                let all = self@.nodes.dom();
                vstd::set_lib::lemma_set_disjoint_lens(self@.live(), self@.dead);
                assert(self@.live() + self@.dead =~= all);
            }
        }
        let n: usize = self.nodes.len();
        let d: usize = self.tombstones.len();
        if n < d {
            0
        } else {
            n - d
        }
    }

    /// Whether there is no node that was not deleted.
    pub fn is_empty(&self) -> (r: bool)
        ensures
            r == (self@.nodes.len() <= self@.dead.len()),
            self@.wf() ==> r == (self@.live().len() == 0),
    {
        self.len() == 0
    }

    /// Those of the nearest nodes whose rank is at most `radius`.
    pub fn search_range<D: Fn(u64) -> u32>(&self, len: usize, dist: &D, radius: u32) -> (r: Result<
        Vec<(u64, u32)>,
        IndexError,
    >)
        requires
            measure::measures(*dist),
        ensures
            len != self@.dim ==> r == Err::<Vec<(u64, u32)>, IndexError>(
                IndexError::DimensionMismatch { expected: self@.dim, actual: len },
            ),
            len == self@.dim ==> (r matches Ok(v) && v@ == within(
                answer(self@, measure::ranks(*dist), range_width(self@)),
                radius,
            )),
    {
        let n: usize = self.nodes.len();
        let k: usize = if n == 0 {
            1
        } else {
            n
        };
        let found = match self.search_knn(len, dist, k) {
            Ok(v) => v,
            Err(e) => return Err(e),
        };
        let r = keep_within(found.as_slice(), radius);
        Ok(r)
    }
}

/// These are the nodes that have edges on a layer, each once.
pub open spec fn lists(ks: Seq<u64>, m: Map<u64, Seq<u64>>) -> bool {
    ks.no_duplicates() && ks.to_set() == m.dom()
}

/// How many edges these nodes have on a layer.
pub open spec fn edge_sum(m: Map<u64, Seq<u64>>, ks: Seq<u64>) -> nat
    decreases ks.len(),
{
    if ks.len() == 0 {
        0
    } else {
        edge_sum(m, ks.drop_last()) + m[ks.last()].len()
    }
}

/// There are so many edges on a layer.
pub open spec fn has_edges(m: Map<u64, Seq<u64>>, n: nat) -> bool {
    exists|ks: Seq<u64>| #[trigger] lists(ks, m) && edge_sum(m, ks) == n
}

/// There are so many edges on these layers.
pub open spec fn have_edges(layers: Seq<Map<u64, Seq<u64>>>, n: nat) -> bool
    decreases layers.len(),
{
    if layers.len() == 0 {
        n == 0
    } else {
        exists|k: nat| #[trigger]
            has_edges(layers.last(), k) && k <= n && have_edges(layers.drop_last(), (n - k) as nat)
    }
}

/// A number, or the greatest that can be written where it cannot be.
pub open spec fn most(n: nat) -> usize {
    if n <= usize::MAX {
        n as usize
    } else {
        usize::MAX
    }
}

/// The sum, or the greatest number where it cannot be written.
fn plus(a: usize, b: usize) -> (r: usize)
    ensures
        r == most((a + b) as nat),
{
    match a.checked_add(b) {
        Some(s) => s,
        None => usize::MAX,
    }
}

/// Adds the edges of a layer.
fn add_edges(layer: &HashMap<u64, Vec<u64>>, start: usize, before: Ghost<nat>) -> (r: (
    usize,
    Ghost<nat>,
))
    requires
        start == most(before@),
    ensures
        has_edges(edge_map(layer@), r.1@),
        r.0 == most(before@ + r.1@),
{
    let ghost m = edge_map(layer@);
    let mut total: usize = start;
    let ghost mut seen = Seq::<u64>::empty();
    proof {
        assert(m.dom() =~= layer@.dom());
        assert(layer@.dom().len() == 0 ==> layer@.dom() =~= seen.to_set());
    }
    for k in it: layer.keys()
        invariant
            m == edge_map(layer@),
            it.seq().unref().to_set() == layer@.dom(),
            it.seq().no_duplicates(),
            it.seq().len() == it.seq().unref().len(),
            seen == it.seq().unref().take(it.index() as int),
            it.index() == it.seq().len() ==> lists(seen, m),
            total == most(before@ + edge_sum(m, seen)),
    {
        proof {
            let all = it.seq().unref();
            assert(all[it.index() as int] == *k);
            assert(all.to_set().contains(*k));
        }
        let n: usize = match layer.get(k) {
            Some(v) => v.len(),
            None => 0,
        };
        total = plus(total, n);
        proof {
            let ghost next = seen.push(*k);
            assert(next.drop_last() =~= seen);
            seen = next;
        }
        proof {
            assert(seen =~= it.seq().unref().take(it.index() + 1));
            assert(it.index() + 1 == it.seq().len() ==> seen =~= it.seq().unref());
            assert(m.dom() =~= layer@.dom());
            assert(seen.no_duplicates());
        }
    }
    (total, Ghost(edge_sum(m, seen)))
}

impl HnswIndex {
    /// How many edges there are.
    fn edge_total(&self) -> (r: (usize, Ghost<nat>))
        ensures
            have_edges(self@.layers, r.1@),
            r.0 == most(r.1@),
    {
        let mut total: usize = 0;
        let ghost mut sum: nat = 0;
        let mut i: usize = 0;
        assert(self@.layers.take(0) =~= Seq::empty());
        while i < self.layers.len()
            invariant
                i <= self.layers@.len(),
                have_edges(self@.layers.take(i as int), sum),
                total == most(sum),
            decreases self.layers@.len() - i,
        {
            let (t, n) = add_edges(&self.layers[i], total, Ghost(sum));
            proof {
                let now = self@.layers.take(i + 1);
                assert(now.last() == edge_map(self.layers@[i as int]@));
                assert(now.drop_last() =~= self@.layers.take(i as int));
                assert(has_edges(now.last(), n@));
                assert((sum + n@ - n@) as nat == sum);
                sum = sum + n@;
            }
            total = t;
            i = i + 1;
        }
        assert(self@.layers.take(i as int) =~= self@.layers);
        (total, Ghost(sum))
    }

    /// What the index tells of itself: for each node its vector and some words,
    /// for each edge a number.
    pub fn stats(&self) -> (r: AnnIndexStats)
        ensures
            exists|n: nat| #[trigger]
                have_edges(self@.layers, n) && (self@.nodes.len() * (4 * self@.dim + 16) + 8 * n
                    <= usize::MAX ==> r.memory_bytes == self@.nodes.len() * (4 * self@.dim + 16)
                    + 8 * n),
            r.num_vectors == if self@.nodes.len() < self@.dead.len() {
                0
            } else {
                self@.nodes.len() - self@.dead.len()
            },
            r.index_type@ == "hnsw"@,
    {
        let (edges, sum) = self.edge_total();
        let nodes: usize = self.nodes.len();
        let each: Option<usize> = match self.dim.checked_mul(4) {
            Some(d) => d.checked_add(16),
            None => None,
        };
        let vectors: usize = match each {
            Some(e) => match nodes.checked_mul(e) {
                Some(v) => v,
                None => usize::MAX,
            },
            None => if nodes == 0 {
                0
            } else {
                usize::MAX
            },
        };
        let adj: usize = match edges.checked_mul(8) {
            Some(v) => v,
            None => usize::MAX,
        };
        proof {
            let n = sum@;
            let d = 4 * self@.dim + 16;
            assert(have_edges(self@.layers, n));
            assert(nodes == 0 ==> nodes * d == 0) by (nonlinear_arith);
            assert(nodes >= 1 ==> nodes * d >= d) by (nonlinear_arith)
                requires
                    d >= 0,
            ;
        }
        AnnIndexStats {
            memory_bytes: plus(vectors, adj),
            num_vectors: self.len(),
            index_type: "hnsw".to_owned(),
        }
    }
}

/// How many nodes a range search looks at.
pub open spec fn range_width(g: HnswView) -> usize {
    if g.nodes.len() == 0 {
        1
    } else {
        g.nodes.len() as usize
    }
}

/// Those whose rank is at most `radius`, in their order.
pub open spec fn within(v: Seq<(u64, u32)>, radius: u32) -> Seq<(u64, u32)>
    decreases v.len(),
{
    if v.len() == 0 {
        Seq::empty()
    } else {
        let front = within(v.drop_last(), radius);
        if v.last().1 <= radius {
            front.push(v.last())
        } else {
            front
        }
    }
}

/// Those whose rank is at most `radius`, in their order.
pub fn keep_within(v: &[(u64, u32)], radius: u32) -> (r: Vec<(u64, u32)>)
    ensures
        r@ == within(v@, radius),
{
    let mut r: Vec<(u64, u32)> = Vec::new();
    let mut i: usize = 0;
    assert(v@.take(0) =~= Seq::empty());
    while i < v.len()
        invariant
            i <= v@.len(),
            r@ == within(v@.take(i as int), radius),
        decreases v@.len() - i,
    {
        proof {
            assert(v@.take(i + 1).drop_last() =~= v@.take(i as int));
            assert(v@.take(i + 1).last() == v@[i as int]);
        }
        if v[i].1 <= radius {
            r.push(v[i]);
        }
        i = i + 1;
    }
    assert(v@.take(i as int) =~= v@);
    r
}

} // verus!
