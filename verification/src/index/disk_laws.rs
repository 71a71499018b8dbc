//! What a search of the graph on disk gives, in terms of the files and the distances.
use crate::bytes;
use crate::index::disk;
use crate::index::disk::DiskView;
use crate::index::hnsw_laws;
use crate::index::order;
use crate::index::walk;
use crate::index::walk::{Field, Walk};
use vstd::prelude::*;

verus! {

/// As many candidates are ranked exactly as are asked for, times as often as is set,
/// and never fewer than are asked for.
pub proof fn lemma_enough_are_ranked(g: DiskView, k: usize)
    ensures
        disk::rerank_count(g, k) >= k,
        disk::rerank_count(g, k) >= k * g.config.rerank_factor,
        g.config.rerank_factor > 0 ==> disk::rerank_count(g, k) == k * g.config.rerank_factor,
        disk::at_least_one(disk::rerank_count(g, k)) >= 1,
        k > 0 ==> disk::at_least_one(disk::rerank_count(g, k)) == disk::rerank_count(g, k),
{
    let (a, b) = (k as int, g.config.rerank_factor as int);
    assert(b >= 1 ==> a * b >= a) by (nonlinear_arith)
        requires
            a >= 0,
    ;
}

/// The vectors of a file stand one behind the other, each behind the number of its node.
pub proof fn lemma_vector_is_found(ids: Seq<u64>, vectors: Seq<Vec<u8>>, dims: nat, i: int)
    requires
        0 <= i < ids.len() <= vectors.len(),
        forall|j: int| 0 <= j < vectors.len() ==> (#[trigger] vectors[j])@.len() == 4 * dims,
    ensures
        disk::vector_at(i as nat, dims) + disk::vector_len(dims) <= disk::pairs_bytes(
            ids,
            vectors,
        ).len(),
        disk::pairs_bytes(ids, vectors).subrange(
            disk::vector_at(i as nat, dims) as int,
            (disk::vector_at(i as nat, dims) + disk::vector_len(dims)) as int,
        ).skip(8) == vectors[i]@,
{
    broadcast use bytes::lemma_le_bytes_len;

    let l = (8 + 4 * dims) as int;
    disk::lemma_pair_at(ids, vectors, 4 * dims, i);
    assert((i + 1) * l == i * l + l) by (nonlinear_arith);
    let rec = disk::pairs_bytes(ids, vectors).subrange(i * l, (i + 1) * l);
    assert(rec.skip(8) =~= vectors[i]@);
}

/// Where no node stands twice, the place of each is where it stands, and no other node
/// has one.
pub proof fn lemma_place_is_where_it_stands(ids: Seq<u64>, i: int, x: u64)
    requires
        ids.no_duplicates(),
        ids.len() <= usize::MAX,
    ensures
        0 <= i < ids.len() ==> disk::places_of(ids).contains_key(ids[i]) && disk::places_of(
            ids,
        )[ids[i]] == i,
        disk::places_of(ids).contains_key(x) <==> ids.contains(x),
    decreases ids.len(),
{
    if ids.len() > 0 {
        let front = ids.drop_last();
        assert forall|a: int, b: int|
            0 <= a < front.len() && 0 <= b < front.len() && a != b implies front[a] != front[b] by {
            assert(ids[a] != ids[b]);
        }
        lemma_place_is_where_it_stands(front, i, x);
        assert(ids[ids.len() - 1] == ids.last());
        if 0 <= i < front.len() {
            assert(front[i] == ids[i] && ids[i] != ids[ids.len() - 1]);
        }
        if front.contains(x) {
            let k = choose|k: int| 0 <= k < front.len() && front[k] == x;
            assert(ids[k] == x);
        }
        if ids.contains(x) && x != ids.last() {
            let k = choose|k: int| 0 <= k < ids.len() && ids[k] == x;
            assert(front[k] == x);
        }
    }
}

/// A search by codes finds nodes of the graph, each once, the nearest first; and all that
/// it can come to where it finds fewer than it looks for.
pub proof fn lemma_candidates(g: DiskView, f: Field, n: nat, v: u64)
    requires
        f.live == g.places.dom(),
        g.places.dom().finite(),
        g.config.beam_width > 0,
    ensures
        ({
            let c = disk::coarse(g, f, n);
            &&& c.len() <= n
            &&& c.no_duplicates()
            &&& forall|i: int| 0 <= i < c.len() ==> g.places.contains_key(#[trigger] c[i])
            &&& forall|i: int, j: int|
                0 <= i < j < c.len() ==> (f.rank)(#[trigger] c[i]) <= (f.rank)(#[trigger] c[j])
            &&& c.len() < n && walk::reachable(f, v) ==> c.contains(v)
        }),
{
    let p = disk::disk_pace(g, n);
    let c = disk::coarse(g, f, n);
    walk::lemma_found_is_beam(f, p);
    assert forall|i: int| 0 <= i < c.len() implies g.places.contains_key(#[trigger] c[i]) by {
        assert(f.live.contains(c[i]));
    }
    if c.len() < n && walk::reachable(f, v) {
        hnsw_laws::lemma_short_search_has_found_all(f, p, v);
    }
}

proof fn lemma_with_places(places: Map<u64, usize>, ids: Seq<u64>, x: (u64, u64))
    ensures
        disk::with_places(places, ids).contains(x) <==> ids.contains(x.0) && places.contains_key(
            x.0,
        ) && x.1 == places[x.0],
        disk::with_places(places, ids).len() == ids.filter(|id: u64| places.contains_key(id)).len(),
    decreases ids.len(),
{
    reveal(Seq::filter);
    if ids.len() > 0 {
        let front = ids.drop_last();
        let y = ids.last();
        lemma_with_places(places, front, x);
        let a = disk::with_places(places, front);
        let b = disk::with_places(places, ids);
        assert(ids[ids.len() - 1] == y);
        if front.contains(x.0) {
            let i = choose|i: int| 0 <= i < front.len() && front[i] == x.0;
            assert(ids[i] == x.0);
        }
        if ids.contains(x.0) && x.0 != y {
            let i = choose|i: int| 0 <= i < ids.len() && ids[i] == x.0;
            assert(front[i] == x.0);
        }
        if a.contains(x) {
            let i = choose|i: int| 0 <= i < a.len() && a[i] == x;
            assert(b[i] == x);
        }
        if b.contains(x) {
            let i = choose|i: int| 0 <= i < b.len() && b[i] == x;
            if i < a.len() {
                assert(a[i] == x);
            }
        }
        if places.contains_key(y) {
            assert(b[a.len() as int] == (y, places[y] as u64));
        }
    }
}

/// The answer is the `k` candidates whose full vectors are nearest, or all that have
/// one where there are no more, the nearest first: each hit is a candidate with the
/// distance of the vector that stands at its place, and a candidate that has one is left
/// out only when `k` are there that are no farther.
pub proof fn lemma_answer_is_the_best_of_the_candidates<
    R: Fn(u64, usize) -> Result<Vec<u8>, String>,
    X: Fn(Vec<u8>) -> u32,
>(g: DiskView, read: &R, exact: X, candidates: Seq<u64>, k: usize, v: u64)
    ensures
        ({
            let r = disk::short(disk::reranked(g, read, exact, candidates, k));
            let n = candidates.filter(|id: u64| g.places.contains_key(id)).len();
            let d = |id: u64|
                disk::exact_rank(exact, disk::stored_vector(g, read, g.places[id] as u64));
            &&& r.len() == if n < k {
                n
            } else {
                k as nat
            }
            &&& forall|i: int, j: int|
                0 <= i < j < r.len() ==> (#[trigger] r[i]).1 <= (#[trigger] r[j]).1
            &&& forall|i: int|
                0 <= i < r.len() ==> candidates.contains((#[trigger] r[i]).0)
                    && g.places.contains_key(r[i].0) && r[i].1 == d(r[i].0)
            &&& candidates.contains(v) && g.places.contains_key(v) ==> r.contains((v, d(v))) || (
            r.len() == k && forall|i: int| 0 <= i < r.len() ==> (#[trigger] r[i]).1 <= d(v))
        }),
{
    broadcast use vstd::seq_lib::group_to_multiset_ensures;

    let p = disk::with_places(g.places, candidates);
    let q = order::in_order(p);
    let s = disk::scored(g, read, exact, q);
    let t = order::in_order(s);
    let all = disk::reranked(g, read, exact, candidates, k);
    let r = disk::short(all);
    let d = |id: u64| disk::exact_rank(exact, disk::stored_vector(g, read, g.places[id] as u64));
    order::lemma_in_order(p);
    order::lemma_in_order(s);
    lemma_with_places(g.places, candidates, (v, g.places[v] as u64));
    assert forall|i: int| 0 <= i < q.len() implies candidates.contains((#[trigger] q[i]).0)
        && g.places.contains_key(q[i].0) && q[i].1 == g.places[q[i].0] && s[i] == (
        q[i].0,
        d(q[i].0) as u64,
    ) by {
        assert(q.contains(q[i]));
        assert(p.to_multiset().count(q[i]) > 0);
        lemma_with_places(g.places, candidates, q[i]);
    }
    assert forall|i: int| 0 <= i < t.len() implies candidates.contains((#[trigger] t[i]).0)
        && g.places.contains_key(t[i].0) && t[i].1 == d(t[i].0) by {
        assert(t.contains(t[i]));
        assert(s.to_multiset().count(t[i]) > 0);
        let j = choose|j: int| 0 <= j < s.len() && s[j] == t[i];
        assert(candidates.contains(q[j].0));
    }
    assert forall|i: int| 0 <= i < r.len() implies (#[trigger] r[i]).0 == t[i].0 && r[i].1
        == t[i].1 by {
        assert(all[i] == t[i]);
        assert(t[i].1 == d(t[i].0));
    }
    assert forall|i: int, j: int| 0 <= i < j < r.len() implies (#[trigger] r[i]).1 <= (
    #[trigger] r[j]).1 by {
        assert(t[i].1 <= t[j].1);
    }
    if candidates.contains(v) && g.places.contains_key(v) {
        let x = (v, g.places[v] as u64);
        assert(p.to_multiset().count(x) > 0);
        assert(q.contains(x));
        let i = choose|i: int| 0 <= i < q.len() && q[i] == x;
        assert(s[i] == (v, d(v) as u64));
        assert(s.contains(s[i]));
        assert(t.to_multiset().count(s[i]) > 0);
        assert(t.contains(s[i]));
        let j = choose|j: int| 0 <= j < t.len() && t[j] == s[i];
        if j < r.len() {
            assert(r[j] == (v, d(v)));
        } else {
            assert forall|m: int| 0 <= m < r.len() implies (#[trigger] r[m]).1 <= d(v) by {
                assert(t[m].1 <= t[j].1);
            }
        }
    }
}

/// A search by codes begins at the node in the middle: it finds that one, unless it finds
/// as many as it looks for that are no farther.
pub proof fn lemma_search_begins_in_the_middle<
    R: Fn(u64, usize) -> Result<Vec<u8>, String>,
    D: Fn(u64) -> u32,
>(g: DiskView, read: &R, dist: D, n: nat)
    requires
        g.places.dom().finite(),
        g.places.contains_key(g.medoid_id),
        g.config.beam_width > 0,
        n > 0,
    ensures
        ({
            let f = disk::disk_field(g, read, dist);
            let c = disk::coarse(g, f, n);
            c.contains(g.medoid_id) || (c.len() == n && (f.rank)(c.last()) <= (f.rank)(g.medoid_id))
        }),
{
    let f = disk::disk_field(g, read, dist);
    let c = disk::coarse(g, f, n);
    walk::lemma_found_is_beam(f, disk::disk_pace(g, n));
    assert(f.seeds[0] == g.medoid_id);
    assert(f.seeds.contains(g.medoid_id));
    assert(walk::beside(c, f, g.medoid_id));
    assert(f.live.contains(g.medoid_id));
}

proof fn lemma_next_are_the_nearest(w: Walk, width: nat)
    ensures
        ({
            let r = walk::next_of(w, width).0;
            let n = w.cands.len();
            &&& r.len() <= width && r.len() <= n
            &&& forall|i: int| 0 <= i < r.len() ==> #[trigger] r[i] == w.cands[n - 1 - i].id
            &&& r.len() < width && r.len() < n ==> w.best.len() > 0 && w.cands[n - 1
                - r.len()].rank > w.best.last().rank
        }),
    decreases width,
{
    if width > 0 && w.cands.len() > 0 && !walk::is_far(w) {
        let less = walk::popped(w);
        lemma_next_are_the_nearest(less, (width - 1) as nat);
        let rest = walk::next_of(less, (width - 1) as nat).0;
        let r = walk::next_of(w, width).0;
        assert(r == seq![w.cands.last().id] + rest);
        assert forall|i: int| 0 <= i < r.len() implies #[trigger] r[i] == w.cands[w.cands.len() - 1
            - i].id by {
            if i > 0 {
                assert(r[i] == rest[i - 1]);
                assert(less.cands[less.cands.len() - 1 - (i - 1)] == w.cands[w.cands.len() - 1 - i]);
            }
        }
        if r.len() < width && r.len() < w.cands.len() {
            assert(less.cands[less.cands.len() - 1 - rest.len()] == w.cands[w.cands.len() - 1
                - r.len()]);
        }
    }
}

/// The nodes that a search on disk reads at once are the nearest that wait: as many as
/// are set, or all of them, or all that are no farther than the farthest of the best. They
/// are read in the order in which they stand on disk.
pub proof fn lemma_reads_come_in_batches(g: DiskView, k: nat, w: Walk)
    ensures
        ({
            let b = walk::batch_of(w, disk::disk_pace(g, k));
            let n = w.cands.len();
            &&& b.len() <= g.config.beam_width && b.len() <= n
            &&& forall|x: u64| #[trigger] b.contains(x) <==> exists|i: int|
                n - b.len() <= i < n && (#[trigger] w.cands[i]).id == x
            &&& b.len() < g.config.beam_width && b.len() < n ==> w.best.len() > 0 && w.cands[n - 1
                - b.len()].rank > w.best.last().rank
            &&& forall|i: int, j: int|
                0 <= i < j < b.len() ==> disk::place_of(g, #[trigger] b[i]) <= disk::place_of(
                    g,
                    #[trigger] b[j],
                )
        }),
{
    broadcast use vstd::seq_lib::group_to_multiset_ensures;

    let p = disk::disk_pace(g, k);
    let r = walk::next_of(w, p.width).0;
    let b = walk::batch_of(w, p);
    let n = w.cands.len();
    lemma_next_are_the_nearest(w, p.width);
    walk::lemma_by_place(r, p.place);
    assert(b.len() == r.len());
    assert forall|x: u64| #[trigger] b.contains(x) <==> exists|i: int|
        n - b.len() <= i < n && (#[trigger] w.cands[i]).id == x by {
        assert(b.to_multiset().count(x) == r.to_multiset().count(x));
        assert(b.contains(x) <==> r.contains(x));
        if r.contains(x) {
            let i = choose|i: int| 0 <= i < r.len() && r[i] == x;
            assert(w.cands[n - 1 - i].id == x);
        }
        if exists|i: int| n - b.len() <= i < n && (#[trigger] w.cands[i]).id == x {
            let i = choose|i: int| n - b.len() <= i < n && (#[trigger] w.cands[i]).id == x;
            assert(r[n - 1 - i] == x);
        }
    }
    assert forall|i: int, j: int| 0 <= i < j < b.len() implies disk::place_of(g, #[trigger] b[i])
        <= disk::place_of(g, #[trigger] b[j]) by {
        assert((p.place)(b[i]) <= (p.place)(b[j]));
    }
}

} // verus!
