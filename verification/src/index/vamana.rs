//! A flat graph with few edges per node, built in two passes over the nodes.
use crate::index::beam;
use crate::index::beam::copy_numbers;
use crate::index::hnsw;
use crate::index::measure;
use crate::index::measure::{ask, ask_pair};
use crate::index::walk;
use crate::index::walk::Field;
use crate::random;
use std::collections::HashMap;
use vstd::prelude::*;

verus! {

broadcast use vstd::std_specs::hash::group_hash_axioms;

/// How the graph is built and searched.
#[derive(Debug, Clone, Copy, PartialEq, Eq, Structural)]
pub struct VamanaConfig {
    /// How many edges a node has at most.
    pub r: usize,
    /// The width of the search that finds a node's neighbours.
    pub l_build: usize,
    /// Into how many parts vectors are cut for their short codes.
    pub pq_subspaces: usize,
    /// How many nodes are read from disk at once.
    pub beam_width: usize,
    /// How many times as many candidates as asked for are ranked exactly.
    pub rerank_factor: usize,
}

impl Default for VamanaConfig {
    fn default() -> (r: Self)
        ensures
            r == (VamanaConfig {
                r: 32,
                l_build: 75,
                pq_subspaces: 8,
                beam_width: 4,
                rerank_factor: 3,
            }),
    {
        VamanaConfig { r: 32, l_build: 75, pq_subspaces: 8, beam_width: 4, rerank_factor: 3 }
    }
}

// ----------------------------------------------------------------------
// Pruning
// ----------------------------------------------------------------------
/// The caller can say whether going to a node by way of another is as good as
/// going there directly, and always says the same.
pub open spec fn judges<C: Fn(u64, u64, u64) -> bool>(c: C) -> bool {
    &&& forall|p: u64, x: u64, v: u64| #[trigger] call_requires(c, (p, x, v))
    &&& forall|p: u64, x: u64, v: u64, a: bool, b: bool| #[trigger]
        call_ensures(c, (p, x, v), a) && #[trigger] call_ensures(c, (p, x, v), b) ==> a == b
}

/// Seen from `p`, the node `x` covers the node `v`.
pub open spec fn judged<C: Fn(u64, u64, u64) -> bool>(c: C, p: u64, x: u64, v: u64) -> bool {
    choose|r: bool| call_ensures(c, (p, x, v), r)
}

/// Seen from `p`, which nodes cover which.
pub open spec fn cover_from<C: Fn(u64, u64, u64) -> bool>(c: C, p: u64) -> spec_fn(
    u64,
    u64,
) -> bool {
    |x: u64, v: u64| judged(c, p, x, v)
}

fn ask_cover<C: Fn(u64, u64, u64) -> bool>(c: &C, p: u64, x: u64, v: u64) -> (r: bool)
    requires
        judges(*c),
    ensures
        r == cover_from(*c, p)(x, v),
{
    let r: bool = c(p, x, v);
    assert(call_ensures(*c, (p, x, v), r));
    r
}

/// The nodes that are not covered, in their order.
pub open spec fn uncovered(s: Seq<u64>, by: u64, covers: spec_fn(u64, u64) -> bool) -> Seq<u64>
    decreases s.len(),
{
    if s.len() == 0 {
        Seq::empty()
    } else {
        let front = uncovered(s.drop_last(), by, covers);
        if covers(by, s.last()) {
            front
        } else {
            front.push(s.last())
        }
    }
}

/// At most `r` of the nodes, taken from the front; each that is taken drops
/// those behind it that it covers.
pub open spec fn pruned(s: Seq<u64>, r: nat, covers: spec_fn(u64, u64) -> bool) -> Seq<u64>
    decreases r,
{
    if s.len() == 0 || r == 0 {
        Seq::empty()
    } else {
        seq![s[0]] + pruned(uncovered(s.drop_first(), s[0], covers), (r - 1) as nat, covers)
    }
}

/// At most `r` neighbours of `p` from the candidates, the nearest first.
pub open spec fn robust(
    ids: Seq<u64>,
    rank: spec_fn(u64) -> u32,
    covers: spec_fn(u64, u64) -> bool,
    r: nat,
) -> Seq<u64> {
    pruned(hnsw::ranked(ids, rank), r, covers)
}

fn drop_covered<C: Fn(u64, u64, u64) -> bool>(
    s: &[u64],
    from: usize,
    p: u64,
    by: u64,
    covers: &C,
) -> (r: Vec<u64>)
    requires
        from <= s@.len(),
        judges(*covers),
    ensures
        r@ == uncovered(s@.skip(from as int), by, cover_from(*covers, p)),
        r@.len() <= s@.len() - from,
{
    let ghost rest = s@.skip(from as int);
    let mut r: Vec<u64> = Vec::new();
    let mut i: usize = from;
    assert(rest.take(0) =~= Seq::empty());
    while i < s.len()
        invariant
            from <= i <= s@.len(),
            judges(*covers),
            rest == s@.skip(from as int),
            r@ == uncovered(rest.take(i - from), by, cover_from(*covers, p)),
            r@.len() <= i - from,
        decreases s@.len() - i,
    {
        proof {
            assert(rest.take(i + 1 - from).drop_last() =~= rest.take(i - from));
            assert(rest.take(i + 1 - from).last() == s@[i as int]);
        }
        if !ask_cover(covers, p, by, s[i]) {
            r.push(s[i]);
        }
        i = i + 1;
    }
    assert(rest.take(i - from) =~= rest);
    r
}

/// Nodes by their distance from the query; equals keep their order.
pub fn sort_by_rank<D: Fn(u64) -> u32>(
    ids: &[u64],
    dist: &D,
    rank: Ghost<spec_fn(u64) -> u32>,
) -> (r: Vec<u64>)
    requires
        measure::gauges(*dist, rank@),
    ensures
        r@ == hnsw::ranked(ids@, rank@),
        r@.len() == ids@.len(),
{
    let mut sorted: Vec<(u32, u64)> = Vec::new();
    let mut i: usize = 0;
    assert(ids@.take(0) =~= Seq::empty());
    assert(hnsw::second(sorted@) =~= Seq::empty());
    while i < ids.len()
        invariant
            i <= ids@.len(),
            measure::gauges(*dist, rank@),
            sorted@.len() == i,
            hnsw::second(sorted@) == hnsw::ranked(ids@.take(i as int), rank@),
            forall|k: int|
                0 <= k < sorted@.len() ==> (#[trigger] sorted@[k]).0 == rank@(sorted@[k].1),
        decreases ids@.len() - i,
    {
        let c: u64 = ids[i];
        proof {
            assert(ids@.take(i + 1).drop_last() =~= ids@.take(i as int));
            assert(ids@.take(i + 1).last() == c);
        }
        let d: u32 = ask(dist, c, rank);
        let ghost before = hnsw::second(sorted@);
        let mut p: usize = sorted.len();
        while p > 0 && d < sorted[p - 1].0
            invariant
                p <= sorted@.len(),
                before == hnsw::second(sorted@),
                d == rank@(c),
                forall|k: int|
                    0 <= k < sorted@.len() ==> (#[trigger] sorted@[k]).0 == rank@(sorted@[k].1),
                forall|k: int| p <= k < before.len() ==> rank@(c) < rank@(#[trigger] before[k]),
            decreases p,
        {
            assert(before[p - 1] == sorted@[p - 1].1);
            p = p - 1;
        }
        proof {
            if p > 0 {
                assert(before[p - 1] == sorted@[p - 1].1);
            }
            hnsw::lemma_insert_by_rank(before, rank@, c, p as int);
        }
        let ghost old_sorted = sorted@;
        sorted.insert(p, (d, c));
        proof {
            assert(hnsw::second(sorted@) =~= before.insert(p as int, c));
            assert forall|k: int| 0 <= k < sorted@.len() implies (#[trigger] sorted@[k]).0 == rank@(
                sorted@[k].1,
            ) by {
                if k < p {
                    assert(sorted@[k] == old_sorted[k]);
                } else if k > p {
                    assert(sorted@[k] == old_sorted[k - 1]);
                }
            }
        }
        i = i + 1;
    }
    assert(ids@.take(i as int) =~= ids@);
    let mut r: Vec<u64> = Vec::new();
    let mut j: usize = 0;
    while j < sorted.len()
        invariant
            j <= sorted@.len(),
            r@ == hnsw::second(sorted@).take(j as int),
        decreases sorted@.len() - j,
    {
        r.push(sorted[j].1);
        assert(hnsw::second(sorted@).take(j + 1) =~= hnsw::second(sorted@).take(j as int).push(
            sorted@[j as int].1,
        ));
        j = j + 1;
    }
    assert(r@ =~= hnsw::second(sorted@));
    r
}

/// Chooses at most `r` neighbours of `p`, so that they lie in different
/// directions: the nearest is taken, and those that it covers are dropped, and
/// so on.
fn robust_prune_by<D: Fn(u64) -> u32, C: Fn(u64, u64, u64) -> bool>(
    p: u64,
    candidates: &[u64],
    dist: &D,
    rank: Ghost<spec_fn(u64) -> u32>,
    covers: &C,
    r: usize,
) -> (out: Vec<u64>)
    requires
        measure::gauges(*dist, rank@),
        judges(*covers),
    ensures
        out@ == robust(candidates@, rank@, cover_from(*covers, p), r as nat),
        out@.len() <= r,
{
    let mut remaining = sort_by_rank(candidates, dist, rank);
    let ghost all = pruned(remaining@, r as nat, cover_from(*covers, p));
    let mut result: Vec<u64> = Vec::new();
    assert(Seq::<u64>::empty() + all =~= all);
    while remaining.len() > 0 && result.len() < r
        invariant
            judges(*covers),
            result@.len() <= r,
            all == result@ + pruned(
                remaining@,
                (r - result@.len()) as nat,
                cover_from(*covers, p),
            ),
        decreases remaining@.len(),
    {
        let star: u64 = remaining[0];
        let rest = drop_covered(remaining.as_slice(), 1, p, star, covers);
        proof {
            assert(remaining@.skip(1) =~= remaining@.drop_first());
            let tail = pruned(rest@, (r - result@.len() - 1) as nat, cover_from(*covers, p));
            assert(result@ + (seq![star] + tail) =~= result@.push(star) + tail);
        }
        result.push(star);
        remaining = rest;
    }
    assert(result@ + Seq::<u64>::empty() =~= result@);
    result
}

/// Chooses at most `r` neighbours of `p` from the candidates. `dist` says how
/// far a node is from `p`; `covers(p, x, v)` says whether `x` covers `v`.
pub fn robust_prune<D: Fn(u64) -> u32, C: Fn(u64, u64, u64) -> bool>(
    p: u64,
    candidates: &[u64],
    dist: &D,
    covers: &C,
    r: usize,
) -> (out: Vec<u64>)
    requires
        measure::measures(*dist),
        judges(*covers),
    ensures
        out@ == robust(candidates@, measure::ranks(*dist), cover_from(*covers, p), r as nat),
{
    proof {
        measure::lemma_gauges(*dist);
    }
    robust_prune_by(p, candidates, dist, Ghost(measure::ranks(*dist)), covers, r)
}

// ----------------------------------------------------------------------
// Building
// ----------------------------------------------------------------------
/// The edges of the nodes.
pub type Edges = Map<u64, Seq<u64>>;

/// Where the edges of a node lead.
pub open spec fn edges_of(adj: Edges, id: u64) -> Seq<u64> {
    if adj.contains_key(id) {
        adj[id]
    } else {
        Seq::empty()
    }
}

/// What a search for the neighbours of a node sees.
pub open spec fn field(adj: Edges, known: Set<u64>, rank: spec_fn(u64) -> u32, start: u64) -> Field {
    Field {
        rank,
        live: known,
        edges: |id: u64| edges_of(adj, id),
        seeds: seq![start],
    }
}

/// The numbers behind those that are there, each once, without `skip`.
pub open spec fn merged(have: Seq<u64>, more: Seq<u64>, skip: u64) -> Seq<u64>
    decreases more.len(),
{
    if more.len() == 0 {
        have
    } else {
        let front = merged(have, more.drop_last(), skip);
        if more.last() == skip || front.contains(more.last()) {
            front
        } else {
            front.push(more.last())
        }
    }
}

/// The ways of measuring that a pass works with: distances of nodes, and
/// which nodes cover which, seen from a node.
pub ghost struct Gauge {
    pub pair: spec_fn(u64, u64) -> u32,
    pub covers: spec_fn(u64) -> spec_fn(u64, u64) -> bool,
    pub known: Set<u64>,
}

/// The candidates that are known.
pub open spec fn known_of(known: Set<u64>, ids: Seq<u64>) -> Seq<u64>
    decreases ids.len(),
{
    if ids.len() == 0 {
        Seq::empty()
    } else {
        let front = known_of(known, ids.drop_last());
        if known.contains(ids.last()) {
            front.push(ids.last())
        } else {
            front
        }
    }
}

/// The neighbours that a node keeps of the candidates.
pub open spec fn kept(g: Gauge, p: u64, ids: Seq<u64>, r: nat) -> Seq<u64> {
    robust(known_of(g.known, ids), hnsw::rank_from(g.pair, p), (g.covers)(p), r)
}

/// The edge from a neighbour back to the node; a neighbour that then has more
/// than `r` edges keeps the best.
pub open spec fn back_edge(adj: Edges, g: Gauge, p: u64, q: u64, r: nat) -> Edges {
    let have = edges_of(adj, q);
    let edges = if have.contains(p) {
        have
    } else {
        have.push(p)
    };
    if edges.len() > r {
        adj.insert(q, kept(g, q, edges, r))
    } else {
        adj.insert(q, edges)
    }
}

/// The edges after the first `n` neighbours have theirs back.
pub open spec fn back_edges(adj: Edges, g: Gauge, p: u64, nbs: Seq<u64>, n: int, r: nat) -> Edges
    decreases n,
{
    if n <= 0 {
        adj
    } else {
        back_edge(back_edges(adj, g, p, nbs, n - 1, r), g, p, nbs[n - 1], r)
    }
}

/// The edges after a node was gone over, for which a search has found these.
pub open spec fn improved(adj: Edges, g: Gauge, p: u64, found: Seq<u64>, r: nat) -> Edges {
    let nbs = kept(g, p, merged(merged(Seq::empty(), found, p), edges_of(adj, p), p), r);
    back_edges(adj, g, p, nbs, nbs.len() as int, r).insert(p, nbs)
}

/// The edges after a pass over the nodes in the given order.
pub open spec fn passed(
    adj: Edges,
    g: Gauge,
    start: u64,
    order: Seq<u64>,
    l: nat,
    r: nat,
) -> Edges
    decreases order.len(),
{
    if order.len() == 0 {
        adj
    } else {
        let w = walk::found(
            field(adj, g.known, hnsw::rank_from(g.pair, order[0]), start),
            l,
        );
        passed(improved(adj, g, order[0], w, r), g, start, order.drop_first(), l, r)
    }
}

/// The graph: the edges of each node, and the nodes that are known.
pub struct VamanaGraph {
    pub adj: HashMap<u64, Vec<u64>>,
    pub known: HashMap<u64, usize>,
    pub medoid_id: u64,
}

impl VamanaGraph {
    pub open spec fn edges(&self) -> Edges {
        hnsw::edge_map(self.adj@)
    }

    pub open spec fn nodes(&self) -> Set<u64> {
        self.known@.dom()
    }

    /// Where the edges of a node lead.
    pub fn neighbours(&self, id: u64) -> (r: Vec<u64>)
        ensures
            r@ == edges_of(self.edges(), id),
    {
        match self.adj.get(&id) {
            Some(v) => copy_numbers(v.as_slice()),
            None => Vec::new(),
        }
    }

    /// A search of width `l` for the nodes nearest to a query.
    fn greedy_search_by<D: Fn(u64) -> u32>(
        &self,
        dist: &D,
        rank: Ghost<spec_fn(u64) -> u32>,
        l: usize,
    ) -> (r: Vec<u64>)
        requires
            measure::gauges(*dist, rank@),
        ensures
            r@ == walk::found(
                field(self.edges(), self.nodes(), rank@, self.medoid_id),
                l as nat,
            ),
    {
        let ghost f = field(self.edges(), self.nodes(), rank@, self.medoid_id);
        let mut start: Vec<u64> = Vec::new();
        start.push(self.medoid_id);
        assert(start@ =~= seq![self.medoid_id]);
        let live = |id: u64| -> (r: bool)
            ensures
                r == self.nodes().contains(id),
            { self.known.contains_key(&id) };
        let edges = |id: u64| -> (r: Vec<u64>)
            ensures
                r@ == edges_of(self.edges(), id),
            { self.neighbours(id) };
        beam::search(dist, &live, &edges, start.as_slice(), l, Ghost(f))
    }

    /// A search of width `l` for the nodes nearest to a query, from the middle
    /// of the graph on.
    pub fn greedy_search_graph<D: Fn(u64) -> u32>(&self, dist: &D, l: usize) -> (r: Vec<u64>)
        requires
            measure::measures(*dist),
        ensures
            r@ == walk::found(
                field(self.edges(), self.nodes(), measure::ranks(*dist), self.medoid_id),
                l as nat,
            ),
    {
        proof {
            measure::lemma_gauges(*dist);
        }
        self.greedy_search_by(dist, Ghost(measure::ranks(*dist)), l)
    }

    fn set_edges(&mut self, id: u64, edges: Vec<u64>)
        ensures
            final(self).edges() == old(self).edges().insert(id, edges@),
            final(self).known == old(self).known,
            final(self).medoid_id == old(self).medoid_id,
    {
        let ghost before = self.edges();
        self.adj.insert(id, edges);
        assert(self.edges() =~= before.insert(id, edges@));
    }
}

/// What a caller's answers are measured by.
pub open spec fn gauge_of<P: Fn(u64, u64) -> u32, C: Fn(u64, u64, u64) -> bool>(
    pair: P,
    covers: C,
    known: Set<u64>,
) -> Gauge {
    Gauge {
        pair: hnsw::pair_ranks(pair),
        covers: |p: u64| cover_from(covers, p),
        known,
    }
}

fn has_number(v: &[u64], x: u64) -> (r: bool)
    ensures
        r == v@.contains(x),
{
    let mut i: usize = 0;
    while i < v.len()
        invariant
            i <= v@.len(),
            forall|k: int| 0 <= k < i ==> v@[k] != x,
        decreases v@.len() - i,
    {
        if v[i] == x {
            return true;
        }
        i = i + 1;
    }
    false
}

fn merge_into(have: &mut Vec<u64>, more: &[u64], skip: u64)
    ensures
        final(have)@ == merged(old(have)@, more@, skip),
{
    let ghost start = have@;
    let mut i: usize = 0;
    assert(more@.take(0) =~= Seq::empty());
    while i < more.len()
        invariant
            i <= more@.len(),
            have@ == merged(start, more@.take(i as int), skip),
        decreases more@.len() - i,
    {
        proof {
            assert(more@.take(i + 1).drop_last() =~= more@.take(i as int));
            assert(more@.take(i + 1).last() == more@[i as int]);
        }
        if more[i] != skip && !has_number(have.as_slice(), more[i]) {
            have.push(more[i]);
        }
        i = i + 1;
    }
    assert(more@.take(i as int) =~= more@);
}

impl VamanaGraph {
    /// The neighbours that a node keeps of the candidates.
    fn keep<P: Fn(u64, u64) -> u32, C: Fn(u64, u64, u64) -> bool>(
        &self,
        p: u64,
        ids: &[u64],
        pair: &P,
        covers: &C,
        r: usize,
    ) -> (out: Vec<u64>)
        requires
            measure::measures_pairs(*pair),
            judges(*covers),
        ensures
            out@ == kept(gauge_of(*pair, *covers, self.nodes()), p, ids@, r as nat),
    {
        let ghost g = gauge_of(*pair, *covers, self.nodes());
        let mut there: Vec<u64> = Vec::new();
        let mut i: usize = 0;
        assert(ids@.take(0) =~= Seq::empty());
        while i < ids.len()
            invariant
                i <= ids@.len(),
                there@ == known_of(self.nodes(), ids@.take(i as int)),
            decreases ids@.len() - i,
        {
            proof {
                assert(ids@.take(i + 1).drop_last() =~= ids@.take(i as int));
                assert(ids@.take(i + 1).last() == ids@[i as int]);
            }
            if self.known.contains_key(&ids[i]) {
                there.push(ids[i]);
            }
            i = i + 1;
        }
        assert(ids@.take(i as int) =~= ids@);
        let ghost rank = hnsw::rank_from(g.pair, p);
        let dist = |x: u64| -> (r: u32)
            ensures
                r == measure::measure_pair(*pair, p, x),
            { ask_pair(pair, p, x) };
        assert(measure::gauges(dist, rank));
        robust_prune_by(p, there.as_slice(), &dist, Ghost(rank), covers, r)
    }

    /// Goes over one node: finds candidates, keeps the best, and gives them
    /// their edges back.
    fn improve<P: Fn(u64, u64) -> u32, C: Fn(u64, u64, u64) -> bool>(
        &mut self,
        p: u64,
        found: &[u64],
        pair: &P,
        covers: &C,
        r: usize,
    )
        requires
            measure::measures_pairs(*pair),
            judges(*covers),
        ensures
            final(self).known == old(self).known,
            final(self).medoid_id == old(self).medoid_id,
            final(self).edges() == improved(
                old(self).edges(),
                gauge_of(*pair, *covers, old(self).nodes()),
                p,
                found@,
                r as nat,
            ),
    {
        let ghost adj = self.edges();
        let ghost g = gauge_of(*pair, *covers, self.nodes());
        let mut cands: Vec<u64> = Vec::new();
        merge_into(&mut cands, found, p);
        let own = self.neighbours(p);
        merge_into(&mut cands, own.as_slice(), p);
        let nbs = self.keep(p, cands.as_slice(), pair, covers, r);
        let mut i: usize = 0;
        while i < nbs.len()
            invariant
                i <= nbs@.len(),
                measure::measures_pairs(*pair),
                judges(*covers),
                self.known == old(self).known,
                self.medoid_id == old(self).medoid_id,
                g == gauge_of(*pair, *covers, self.nodes()),
                self.edges() == back_edges(adj, g, p, nbs@, i as int, r as nat),
            decreases nbs@.len() - i,
        {
            let q: u64 = nbs[i];
            let mut edges = self.neighbours(q);
            if !has_number(edges.as_slice(), p) {
                edges.push(p);
            }
            if edges.len() > r {
                let left = self.keep(q, edges.as_slice(), pair, covers, r);
                self.set_edges(q, left);
            } else {
                self.set_edges(q, edges);
            }
            i = i + 1;
        }
        self.set_edges(p, nbs);
    }

    /// A pass over the nodes in the given order.
    pub fn refine<P: Fn(u64, u64) -> u32, C: Fn(u64, u64, u64) -> bool>(
        &mut self,
        order: &[u64],
        pair: &P,
        covers: &C,
        l: usize,
        r: usize,
    )
        requires
            measure::measures_pairs(*pair),
            judges(*covers),
        ensures
            final(self).known == old(self).known,
            final(self).medoid_id == old(self).medoid_id,
            final(self).edges() == passed(
                old(self).edges(),
                gauge_of(*pair, *covers, old(self).nodes()),
                old(self).medoid_id,
                order@,
                l as nat,
                r as nat,
            ),
    {
        let ghost adj = self.edges();
        let ghost g = gauge_of(*pair, *covers, self.nodes());
        let ghost start = self.medoid_id;
        let mut i: usize = 0;
        assert(order@.skip(0) =~= order@);
        while i < order.len()
            invariant
                i <= order@.len(),
                measure::measures_pairs(*pair),
                judges(*covers),
                self.known == old(self).known,
                self.medoid_id == start,
                g == gauge_of(*pair, *covers, self.nodes()),
                passed(self.edges(), g, start, order@.skip(i as int), l as nat, r as nat)
                    == passed(adj, g, start, order@, l as nat, r as nat),
            decreases order@.len() - i,
        {
            let p: u64 = order[i];
            let ghost rank = hnsw::rank_from(g.pair, p);
            let dist = |x: u64| -> (r: u32)
                ensures
                    r == measure::measure_pair(*pair, p, x),
                { ask_pair(pair, p, x) };
            assert(measure::gauges(dist, rank));
            let w = self.greedy_search_by(&dist, Ghost(rank), l);
            self.improve(p, w.as_slice(), pair, covers, r);
            proof {
                let rest = order@.skip(i as int);
                assert(rest[0] == p);
                assert(rest.drop_first() =~= order@.skip(i + 1));
            }
            i = i + 1;
        }
        assert(order@.skip(i as int) =~= Seq::empty());
    }
}

/// The numbers but this one.
pub open spec fn others(ids: Seq<u64>, id: u64) -> Seq<u64>
    decreases ids.len(),
{
    if ids.len() == 0 {
        Seq::empty()
    } else {
        let front = others(ids.drop_last(), id);
        if ids.last() == id {
            front
        } else {
            front.push(ids.last())
        }
    }
}

/// Up to `r` of the numbers, drawn from some order of them.
pub open spec fn drawn(from: Seq<u64>, r: nat, v: Seq<u64>) -> bool {
    exists|order: Seq<u64>|
        #[trigger] order.to_multiset() == from.to_multiset() && v == order.take(
            hnsw::lesser(r as int, order.len() as int),
        )
}

/// Each node has up to `r` edges to others, drawn by chance.
pub open spec fn is_start(ids: Seq<u64>, n: int, r: nat, adj: Edges) -> bool {
    &&& forall|id: u64| #[trigger] adj.contains_key(id) <==> ids.take(n).contains(id)
    &&& forall|id: u64| #[trigger] adj.contains_key(id) ==> drawn(others(ids, id), r, adj[id])
}

/// The graph that two passes make of edges drawn by chance, each over the
/// nodes in some order.
pub open spec fn is_built(
    ids: Seq<u64>,
    r: nat,
    l: nat,
    start: u64,
    first: Gauge,
    second: Gauge,
    t: Edges,
) -> bool {
    exists|a: Edges, o1: Seq<u64>, o2: Seq<u64>|
        #![trigger passed(passed(a, first, start, o1, l, r), second, start, o2, l, r)]
        is_start(ids, ids.len() as int, r, a) && o1.to_multiset() == ids.to_multiset()
            && o2.to_multiset() == ids.to_multiset() && t == passed(
            passed(a, first, start, o1, l, r),
            second,
            start,
            o2,
            l,
            r,
        )
}

fn drop_number(ids: &[u64], id: u64) -> (r: Vec<u64>)
    ensures
        r@ == others(ids@, id),
{
    let mut r: Vec<u64> = Vec::new();
    let mut i: usize = 0;
    assert(ids@.take(0) =~= Seq::empty());
    while i < ids.len()
        invariant
            i <= ids@.len(),
            r@ == others(ids@.take(i as int), id),
        decreases ids@.len() - i,
    {
        proof {
            assert(ids@.take(i + 1).drop_last() =~= ids@.take(i as int));
            assert(ids@.take(i + 1).last() == ids@[i as int]);
        }
        if ids[i] != id {
            r.push(ids[i]);
        }
        i = i + 1;
    }
    assert(ids@.take(i as int) =~= ids@);
    r
}

/// The width of the search for a node's neighbours.
pub open spec fn build_width(l: usize) -> nat {
    if l == 0 {
        1
    } else {
        l as nat
    }
}

/// Builds a graph over the nodes; `medoid` is the one in the middle. `pair`
/// says how far two nodes are from each other, and the last two which nodes
/// cover which, in the first pass and in the second.
pub fn build_vamana_graph<P, C1, C2>(
    ids: &[u64],
    medoid: u64,
    config: &VamanaConfig,
    pair: &P,
    first_covers: &C1,
    second_covers: &C2,
) -> (t: VamanaGraph) where
    P: Fn(u64, u64) -> u32,
    C1: Fn(u64, u64, u64) -> bool,
    C2: Fn(u64, u64, u64) -> bool,

    requires
        ids@.len() > 0,
        measure::measures_pairs(*pair),
        judges(*first_covers),
        judges(*second_covers),
    ensures
        t.medoid_id == medoid,
        t.nodes() == ids@.to_set(),
        is_built(
            ids@,
            config.r as nat,
            build_width(config.l_build),
            medoid,
            gauge_of(*pair, *first_covers, ids@.to_set()),
            gauge_of(*pair, *second_covers, ids@.to_set()),
            t.edges(),
        ),
{
    let mut t = VamanaGraph { adj: HashMap::new(), known: HashMap::new(), medoid_id: medoid };
    let ghost r = config.r as nat;
    let mut i: usize = 0;
    proof {
        assert(ids@.take(0) =~= Seq::empty());
        assert(t.edges() =~= Map::empty());
    }
    while i < ids.len()
        invariant
            i <= ids@.len(),
            t.medoid_id == medoid,
            r == config.r,
            is_start(ids@, i as int, r, t.edges()),
            forall|id: u64| #[trigger]
                t.nodes().contains(id) <==> ids@.take(i as int).contains(id),
        decreases ids@.len() - i,
    {
        let id: u64 = ids[i];
        let order = random::shuffled(drop_number(ids, id));
        let ghost whole = order@;
        let mut pool: Vec<u64> = Vec::new();
        let mut j: usize = 0;
        while j < order.len() && j < config.r
            invariant
                j <= order@.len(),
                j <= config.r,
                pool@ == order@.take(j as int),
            decreases order@.len() - j,
        {
            pool.push(order[j]);
            assert(order@.take(j + 1) =~= order@.take(j as int).push(order@[j as int]));
            j = j + 1;
        }
        let ghost before = t.edges();
        let ghost edges = pool@;
        proof {
            assert(whole.to_multiset() == others(ids@, id).to_multiset());
            assert(edges == whole.take(hnsw::lesser(r as int, whole.len() as int)));
            assert(drawn(others(ids@, id), r, edges));
            let now = ids@.take(i + 1);
            let was = ids@.take(i as int);
            assert(now =~= was.push(id));
            assert forall|x: u64| #[trigger] now.contains(x) <==> was.contains(x) || x == id by {
                if was.contains(x) {
                    let k = choose|k: int| 0 <= k < was.len() && was[k] == x;
                    assert(now[k] == x);
                }
                if x == id {
                    assert(now[i as int] == x);
                }
            }
        }
        let ghost nodes = t.nodes();
        t.known.insert(id, i);
        t.set_edges(id, pool);
        proof {
            assert(t.nodes() =~= nodes.insert(id));
            assert forall|x: u64| #[trigger] t.nodes().contains(x) <==> ids@.take(i + 1).contains(
                x,
            ) by {
                assert(nodes.contains(x) <==> ids@.take(i as int).contains(x));
            }
        }
        i = i + 1;
    }
    proof {
        assert(ids@.take(i as int) =~= ids@);
        assert(t.nodes() =~= ids@.to_set());
    }
    let ghost a = t.edges();
    let l: usize = if config.l_build == 0 {
        1
    } else {
        config.l_build
    };
    let o1 = random::shuffled(copy_numbers(ids));
    t.refine(o1.as_slice(), pair, first_covers, l, config.r);
    let ghost m = t.edges();
    let o2 = random::shuffled(copy_numbers(ids));
    t.refine(o2.as_slice(), pair, second_covers, l, config.r);
    proof {
        let known = ids@.to_set();
        let w = build_width(config.l_build);
        let first = gauge_of(*pair, *first_covers, known);
        let second = gauge_of(*pair, *second_covers, known);
        assert(m == passed(a, first, medoid, o1@, w, r));
        assert(t.edges() == passed(
            passed(a, first, medoid, o1@, w, r),
            second,
            medoid,
            o2@,
            w,
            r,
        ));
    }
    t
}

} // verus!
