//! What searches and insertions do, in terms of the nodes and edges of the graph.
use crate::index::hnsw;
use crate::index::hnsw::HnswView;
use crate::index::walk;
use crate::index::walk::{Field, Pace};
use vstd::prelude::*;

verus! {

// ----------------------------------------------------------------------
// Searching
// ----------------------------------------------------------------------
/// A search for `k` neighbours keeps at least `k` nodes, as many as the graph is to be
/// searched with, and at least one; and no more than one of these asks for.
pub proof fn lemma_search_is_wide_enough(g: HnswView, k: usize)
    ensures
        hnsw::search_width(g, k) >= k,
        hnsw::search_width(g, k) >= g.config.ef_search,
        hnsw::search_width(g, k) >= 1,
        hnsw::search_width(g, k) == k || hnsw::search_width(g, k) == g.config.ef_search
            || hnsw::search_width(g, k) == 1,
{
}

proof fn lemma_path_of_short_search(f: Field, p: Pace, path: Seq<u64>, n: int)
    requires
        walk::is_beam(walk::found_by(f, p), f, p.ef),
        walk::found_by(f, p).len() < p.ef,
        walk::is_path(f, path, path.last()),
        0 <= n < path.len(),
    ensures
        walk::found_by(f, p).contains(path[n]),
    decreases n,
{
    let r = walk::found_by(f, p);
    let v = path[n];
    assert(f.live.contains(path[n]));
    if n > 0 {
        lemma_path_of_short_search(f, p, path, n - 1);
        let i = choose|i: int| 0 <= i < r.len() && r[i] == path[n - 1];
        assert((f.edges)(path[n - 1]).contains(path[n - 1 + 1]));
        assert((f.edges)(r[i]).contains(v));
    }
    assert(walk::beside(r, f, v));
}

/// A search that finds fewer nodes than it may has found all that it can come to.
pub proof fn lemma_short_search_has_found_all(f: Field, p: Pace, v: u64)
    requires
        f.live.finite(),
        p.width > 0,
        walk::found_by(f, p).len() < p.ef,
        walk::reachable(f, v),
    ensures
        walk::found_by(f, p).contains(v),
{
    walk::lemma_found_is_beam(f, p);
    let path = choose|path: Seq<u64>| walk::is_path(f, path, v);
    lemma_path_of_short_search(f, p, path, path.len() - 1);
}

/// A search for `k` neighbours gives `k` of them where it can come to as many nodes on
/// the lowest layer.
pub proof fn lemma_search_gives_k(
    g: HnswView,
    rank: spec_fn(u64) -> u32,
    k: usize,
    from: u64,
    top: int,
    s: Set<u64>,
)
    requires
        g.nodes.dom().finite(),
        s.len() >= k,
        forall|v: u64| #[trigger]
            s.contains(v) ==> walk::reachable(
                g.field(rank, seq![hnsw::descended(g, rank, from, top, 1)], 0),
                v,
            ),
        s.finite(),
    ensures
        hnsw::knn(g, rank, k, from, top).len() == k,
{
    let f = g.field(rank, seq![hnsw::descended(g, rank, from, top, 1)], 0);
    let p = walk::one_by_one(hnsw::search_width(g, k));
    let r = walk::found_by(f, p);
    lemma_search_is_wide_enough(g, k);
    walk::lemma_found_is_beam(f, p);
    assert(r == hnsw::nearby(g, rank, k, from, top));
    if r.len() < p.ef {
        assert forall|v: u64| #[trigger] s.contains(v) implies r.to_set().contains(v) by {
            lemma_short_search_has_found_all(f, p, v);
        }
        r.unique_seq_to_set();
        vstd::set_lib::lemma_len_subset(s, r.to_set());
    }
}

/// A search for `k` neighbours that gives fewer gives all nodes that it can come to on
/// the lowest layer.
pub proof fn lemma_short_answer_has_all(
    g: HnswView,
    rank: spec_fn(u64) -> u32,
    k: usize,
    from: u64,
    top: int,
    v: u64,
)
    requires
        g.nodes.dom().finite(),
        hnsw::knn(g, rank, k, from, top).len() < k,
        walk::reachable(g.field(rank, seq![hnsw::descended(g, rank, from, top, 1)], 0), v),
    ensures
        hnsw::knn(g, rank, k, from, top).contains((v, rank(v))),
{
    let f = g.field(rank, seq![hnsw::descended(g, rank, from, top, 1)], 0);
    let p = walk::one_by_one(hnsw::search_width(g, k));
    let r = walk::found_by(f, p);
    let a = hnsw::knn(g, rank, k, from, top);
    lemma_search_is_wide_enough(g, k);
    walk::lemma_found_is_beam(f, p);
    assert(r == hnsw::nearby(g, rank, k, from, top));
    lemma_short_search_has_found_all(f, p, v);
    let i = choose|i: int| 0 <= i < r.len() && r[i] == v;
    assert(a[i] == (v, rank(v)));
}

/// Of the seeds of a search on the lowest layer and of what the edges of its answer
/// lead to, none is left out that is nearer than the last of the answer.
pub proof fn lemma_nothing_nearer_beside_the_answer(
    g: HnswView,
    rank: spec_fn(u64) -> u32,
    k: usize,
    from: u64,
    top: int,
    i: int,
    v: u64,
)
    requires
        g.nodes.dom().finite(),
        0 <= i < hnsw::knn(g, rank, k, from, top).len(),
        g.edges(0, hnsw::knn(g, rank, k, from, top)[i].0).contains(v),
        g.nodes.contains_key(v) && !g.dead.contains(v),
    ensures
        hnsw::knn(g, rank, k, from, top).contains((v, rank(v))) || rank(v) >= hnsw::knn(
            g,
            rank,
            k,
            from,
            top,
        ).last().1,
{
    let f = g.field(rank, seq![hnsw::descended(g, rank, from, top, 1)], 0);
    let p = walk::one_by_one(hnsw::search_width(g, k));
    let r = walk::found_by(f, p);
    let a = hnsw::knn(g, rank, k, from, top);
    walk::lemma_found_is_beam(f, p);
    assert(r == hnsw::nearby(g, rank, k, from, top));
    assert(a[i].0 == r[i]);
    assert((f.edges)(r[i]).contains(v));
    assert(walk::beside(r, f, v));
    assert(f.live.contains(v));
    assert(a.last() == (r[a.len() - 1], rank(r[a.len() - 1])));
    if r.contains(v) {
        let q = choose|q: int| 0 <= q < r.len() && r[q] == v;
        if q < a.len() {
            assert(a[q] == (v, rank(v)));
        } else {
            assert((f.rank)(r[a.len() - 1]) <= (f.rank)(r[q]));
        }
    } else if a.len() - 1 < r.len() - 1 {
        assert((f.rank)(r[a.len() - 1]) <= (f.rank)(r[r.len() - 1]));
    }
}

/// A graph without an entry point gives nothing; another is searched from its entry
/// point on its highest layer.
pub proof fn lemma_search_begins_at_the_entry(g: HnswView, rank: spec_fn(u64) -> u32, k: usize)
    ensures
        g.entry_point is None ==> hnsw::answer(g, rank, k).len() == 0,
        g.entry_point is Some ==> hnsw::answer(g, rank, k) == hnsw::knn(
            g,
            rank,
            k,
            g.entry_point->0,
            g.entry_layer as int,
        ),
{
}

/// Going down the layers never leads away from the query; and where it ends, no edge
/// of the last of these layers leads to a nearer node.
pub proof fn lemma_descent_comes_nearer(
    g: HnswView,
    rank: spec_fn(u64) -> u32,
    from: u64,
    top: int,
    bottom: int,
)
    requires
        g.nodes.dom().finite(),
        g.nodes.contains_key(from) && !g.dead.contains(from),
    ensures
        ({
            let x = hnsw::descended(g, rank, from, top, bottom);
            &&& g.nodes.contains_key(x) && !g.dead.contains(x)
            &&& rank(x) <= rank(from)
            &&& bottom <= top ==> forall|v: u64|
                (#[trigger] g.edges(bottom, x).contains(v)) && g.nodes.contains_key(v)
                    && !g.dead.contains(v) ==> rank(x) <= rank(v)
            &&& top < bottom ==> x == from
        }),
    decreases top - bottom + 1,
{
    if top >= bottom {
        let f = g.field(rank, seq![from], top);
        let p = walk::one_by_one(1);
        let w = walk::found_by(f, p);
        walk::lemma_found_is_beam(f, p);
        assert(f.seeds[0] == from);
        assert(walk::beside(w, f, from));
        assert(f.live.contains(from));
        assert(w.len() == 1);
        let x = w[0];
        assert(f.live.contains(w[0]));
        if w.contains(from) {
            assert(x == from);
        }
        lemma_descent_comes_nearer(g, rank, x, top - 1, bottom);
        if top == bottom {
            assert forall|v: u64|
                (#[trigger] g.edges(bottom, x).contains(v)) && g.nodes.contains_key(v)
                    && !g.dead.contains(v) implies rank(x) <= rank(v) by {
                assert(f.live.contains(v));
                assert((f.edges)(w[0]).contains(v));
                assert(walk::beside(w, f, v));
            }
        }
    }
}

/// What is within a radius is what is not farther, in its order.
pub proof fn lemma_within_is_a_filter(v: Seq<(u64, u32)>, radius: u32)
    ensures
        hnsw::within(v, radius) == v.filter(|h: (u64, u32)| h.1 <= radius),
    decreases v.len(),
{
    reveal(Seq::filter);
    if v.len() > 0 {
        lemma_within_is_a_filter(v.drop_last(), radius);
    }
}

proof fn lemma_within_has(v: Seq<(u64, u32)>, radius: u32, x: (u64, u32))
    ensures
        hnsw::within(v, radius).contains(x) <==> v.contains(x) && x.1 <= radius,
    decreases v.len(),
{
    if v.len() > 0 {
        let front = v.drop_last();
        lemma_within_has(front, radius, x);
        let a = hnsw::within(front, radius);
        let b = hnsw::within(v, radius);
        assert(v[v.len() - 1] == v.last());
        if front.contains(x) {
            let i = choose|i: int| 0 <= i < front.len() && front[i] == x;
            assert(v[i] == x);
        }
        if v.contains(x) && x != v.last() {
            let i = choose|i: int| 0 <= i < v.len() && v[i] == x;
            assert(front[i] == x);
        }
        if a.contains(x) {
            let i = choose|i: int| 0 <= i < a.len() && a[i] == x;
            assert(b[i] == x);
        }
        if b.contains(x) && x != v.last() {
            let i = choose|i: int| 0 <= i < b.len() && b[i] == x;
            assert(a[i] == x);
        }
        if v.last().1 <= radius {
            assert(b[a.len() as int] == v.last());
        }
    }
}

/// A range search gives the nodes that count, that it can come to on the lowest layer
/// and that are within the radius: each of them, with its rank, and nothing else.
pub proof fn lemma_range_search_gives_all_within(
    g: HnswView,
    rank: spec_fn(u64) -> u32,
    radius: u32,
    v: u64,
    d: u32,
)
    requires
        g.nodes.dom().finite(),
        g.nodes.len() <= usize::MAX,
        g.entry_point is Some,
    ensures
        hnsw::within(hnsw::answer(g, rank, hnsw::range_width(g)), radius).contains((v, d))
            <==> walk::reachable(
            g.field(
                rank,
                seq![hnsw::descended(g, rank, g.entry_point->0, g.entry_layer as int, 1)],
                0,
            ),
            v,
        ) && d == rank(v) && rank(v) <= radius,
{
    let from = g.entry_point->0;
    let top = g.entry_layer as int;
    let k = hnsw::range_width(g);
    let f = g.field(rank, seq![hnsw::descended(g, rank, from, top, 1)], 0);
    let p = walk::one_by_one(hnsw::search_width(g, k));
    let r = walk::found_by(f, p);
    let a = hnsw::answer(g, rank, k);
    lemma_search_is_wide_enough(g, k);
    walk::lemma_found_is_beam(f, p);
    assert(r == hnsw::nearby(g, rank, k, from, top));
    assert(g.live().subset_of(g.nodes.dom()));
    vstd::set_lib::lemma_len_subset(g.live(), g.nodes.dom());
    r.unique_seq_to_set();
    assert(r.to_set().subset_of(f.live)) by {
        assert forall|x: u64| #[trigger] r.to_set().contains(x) implies f.live.contains(x) by {
            let i = choose|i: int| 0 <= i < r.len() && r[i] == x;
            assert(f.live.contains(r[i]));
        }
    }
    vstd::set_lib::lemma_len_subset(r.to_set(), f.live);
    assert(r.len() <= k);
    assert(a.len() == r.len());
    assert forall|i: int| 0 <= i < r.len() implies #[trigger] a[i] == (r[i], rank(r[i])) by {}
    lemma_within_has(a, radius, (v, d));
    if walk::reachable(f, v) {
        walk::lemma_wide_search_finds_all(f, p, v);
        let i = choose|i: int| 0 <= i < r.len() && r[i] == v;
        assert(a[i] == (v, rank(v)));
    }
    if a.contains((v, d)) {
        let i = choose|i: int| 0 <= i < a.len() && a[i] == (v, d);
        assert(r[i] == v && d == rank(v));
        assert(f.live.contains(r[i]) && walk::reachable(f, r[i]));
    }
}

// ----------------------------------------------------------------------
// Choosing neighbours
// ----------------------------------------------------------------------
/// Those that count are the nodes that are there and were not deleted, in their order.
pub proof fn lemma_live_of_is_a_filter(g: HnswView, ids: Seq<u64>)
    ensures
        hnsw::live_of(g, ids) == ids.filter(
            |id: u64| g.nodes.contains_key(id) && !g.dead.contains(id),
        ),
    decreases ids.len(),
{
    reveal(Seq::filter);
    if ids.len() > 0 {
        lemma_live_of_is_a_filter(g, ids.drop_last());
    }
}

proof fn lemma_live_of(g: HnswView, ids: Seq<u64>)
    ensures
        forall|x: u64| #[trigger]
            hnsw::live_of(g, ids).contains(x) <==> ids.contains(x) && g.nodes.contains_key(x)
                && !g.dead.contains(x),
        ids.no_duplicates() ==> hnsw::live_of(g, ids).no_duplicates(),
        hnsw::live_of(g, ids).len() <= ids.len(),
    decreases ids.len(),
{
    if ids.len() > 0 {
        let front = ids.drop_last();
        let y = ids.last();
        lemma_live_of(g, front);
        let a = hnsw::live_of(g, front);
        let b = hnsw::live_of(g, ids);
        assert(ids[ids.len() - 1] == y);
        assert forall|x: u64| #[trigger] b.contains(x) <==> ids.contains(x)
            && g.nodes.contains_key(x) && !g.dead.contains(x) by {
            assert(a.contains(x) <==> front.contains(x) && g.nodes.contains_key(x)
                && !g.dead.contains(x));
            if front.contains(x) {
                let i = choose|i: int| 0 <= i < front.len() && front[i] == x;
                assert(ids[i] == x);
            }
            if ids.contains(x) && x != y {
                let i = choose|i: int| 0 <= i < ids.len() && ids[i] == x;
                assert(front[i] == x);
            }
            if a.contains(x) {
                let i = choose|i: int| 0 <= i < a.len() && a[i] == x;
                assert(b[i] == x);
            }
            if b.contains(x) && x != y {
                let i = choose|i: int| 0 <= i < b.len() && b[i] == x;
                assert(a[i] == x);
            }
            if g.is_live(y) {
                assert(b[a.len() as int] == y);
            }
        }
        if ids.no_duplicates() {
            assert(!front.contains(y)) by {
                if front.contains(y) {
                    let i = choose|i: int| 0 <= i < front.len() && front[i] == y;
                    assert(ids[i] == ids[ids.len() - 1]);
                }
            }
            assert(!a.contains(y));
            assert forall|i: int, j: int|
                0 <= i < b.len() && 0 <= j < b.len() && i != j implies b[i] != b[j] by {
                if i == a.len() {
                    assert(a.contains(b[j]));
                } else if j == a.len() {
                    assert(a.contains(b[i]));
                }
            }
        }
    }
}

/// Nodes by their rank are the same nodes, the nearest first.
pub proof fn lemma_ranked(s: Seq<u64>, rank: spec_fn(u64) -> u32)
    ensures
        hnsw::ranked(s, rank).to_multiset() == s.to_multiset(),
        hnsw::ranked(s, rank).len() == s.len(),
        forall|i: int, j: int|
            0 <= i < j < s.len() ==> rank(#[trigger] hnsw::ranked(s, rank)[i]) <= rank(
                #[trigger] hnsw::ranked(s, rank)[j],
            ),
    decreases s.len(),
{
    broadcast use vstd::seq_lib::group_to_multiset_ensures;

    if s.len() > 0 {
        let front = s.drop_last();
        lemma_ranked(front, rank);
        lemma_put_by_rank(hnsw::ranked(front, rank), rank, s.last());
        assert(s =~= front.push(s.last()));
    } else {
        assert(hnsw::ranked(s, rank) =~= s);
    }
}

proof fn lemma_put_by_rank(s: Seq<u64>, rank: spec_fn(u64) -> u32, id: u64)
    requires
        forall|i: int, j: int|
            0 <= i < j < s.len() ==> rank(#[trigger] s[i]) <= rank(#[trigger] s[j]),
    ensures
        hnsw::insert_by_rank(s, rank, id).to_multiset() == s.to_multiset().insert(id),
        hnsw::insert_by_rank(s, rank, id).len() == s.len() + 1,
        forall|i: int|
            0 <= i < s.len() + 1 ==> (#[trigger] hnsw::insert_by_rank(s, rank, id)[i]) == id
                || s.contains(hnsw::insert_by_rank(s, rank, id)[i]),
        forall|i: int, j: int|
            0 <= i < j < s.len() + 1 ==> rank(#[trigger] hnsw::insert_by_rank(s, rank, id)[i])
                <= rank(#[trigger] hnsw::insert_by_rank(s, rank, id)[j]),
    decreases s.len(),
{
    broadcast use vstd::seq_lib::group_to_multiset_ensures;

    let out = hnsw::insert_by_rank(s, rank, id);
    if s.len() > 0 && rank(id) < rank(s.last()) {
        let front = s.drop_last();
        let last = s[s.len() - 1];
        assert forall|i: int, j: int| 0 <= i < j < front.len() implies rank(#[trigger] front[i])
            <= rank(#[trigger] front[j]) by {
            assert(front[i] == s[i] && front[j] == s[j]);
        }
        lemma_put_by_rank(front, rank, id);
        let inner = hnsw::insert_by_rank(front, rank, id);
        assert(s =~= front.push(last));
        assert(out.to_multiset() =~= s.to_multiset().insert(id));
        assert forall|i: int| 0 <= i < inner.len() implies ((#[trigger] inner[i]) == id
            || s.contains(inner[i])) && rank(inner[i]) <= rank(last) by {
            if inner[i] != id {
                let k = choose|k: int| 0 <= k < front.len() && front[k] == inner[i];
                assert(s[k] == inner[i]);
                assert(rank(s[k]) <= rank(s[s.len() - 1]));
            }
        }
        assert forall|i: int| 0 <= i < out.len() implies (#[trigger] out[i]) == id || s.contains(
            out[i],
        ) by {
            if i < inner.len() {
                assert(out[i] == inner[i]);
            } else {
                assert(s[s.len() - 1] == out[i]);
            }
        }
        assert forall|i: int, j: int| 0 <= i < j < out.len() implies rank(#[trigger] out[i])
            <= rank(#[trigger] out[j]) by {
            assert(out[i] == inner[i]);
            if j < inner.len() {
                assert(out[j] == inner[j]);
            }
        }
    } else {
        assert forall|i: int| 0 <= i < out.len() implies (#[trigger] out[i]) == id || s.contains(
            out[i],
        ) by {
            if i < s.len() {
                assert(s[i] == out[i]);
            }
        }
        assert forall|i: int, j: int| 0 <= i < j < out.len() implies rank(#[trigger] out[i])
            <= rank(#[trigger] out[j]) by {
            assert(out[i] == s[i]);
            if j < s.len() {
                assert(out[j] == s[j]);
            } else if i < s.len() - 1 {
                assert(rank(s[i]) <= rank(s[s.len() - 1]));
            }
        }
    }
}

/// Of nodes that are gone through in their order, one is chosen where it is nearer to
/// the query than to each chosen before it, while there is room; each that was passed
/// over is no nearer to the query than to one of the chosen. None is lost while there
/// is room, and the first is chosen.
pub proof fn lemma_pick(
    s: Seq<u64>,
    n: int,
    m: nat,
    rank: spec_fn(u64) -> u32,
    pair: spec_fn(u64, u64) -> u32,
)
    requires
        0 <= n <= s.len(),
    ensures
        ({
            let p = hnsw::pick(s, n, m, rank, pair);
            &&& p.chosen.len() <= m
            &&& p.chosen.len() + p.passed.len() <= n
            &&& p.chosen.len() < m ==> p.chosen.len() + p.passed.len() == n
            &&& n > 0 && m > 0 ==> p.chosen.len() > 0 && p.chosen[0] == s[0]
            &&& forall|i: int, j: int|
                0 <= i < j < p.chosen.len() ==> rank(#[trigger] p.chosen[j]) < pair(
                    p.chosen[j],
                    #[trigger] p.chosen[i],
                )
            &&& forall|q: int|
                0 <= q < p.passed.len() ==> exists|i: int|
                    0 <= i < p.chosen.len() && rank(#[trigger] p.passed[q]) >= pair(
                        p.passed[q],
                        #[trigger] p.chosen[i],
                    )
        }),
    decreases n,
{
    if n > 0 {
        lemma_pick(s, n - 1, m, rank, pair);
        let a = hnsw::pick(s, n - 1, m, rank, pair);
        let p = hnsw::pick(s, n, m, rank, pair);
        assert forall|i: int, j: int| 0 <= i < j < p.chosen.len() implies rank(
            #[trigger] p.chosen[j],
        ) < pair(p.chosen[j], #[trigger] p.chosen[i]) by {
            assert(a.chosen[i] == p.chosen[i]);
            if j < a.chosen.len() {
                assert(a.chosen[j] == p.chosen[j]);
            } else {
                assert(hnsw::useful(s[n - 1], a.chosen, rank, pair));
                assert(p.chosen[j] == s[n - 1]);
            }
        }
        assert(m > 0 ==> p.chosen.len() > 0 && p.chosen[0] == s[0]) by {
            if n == 1 {
                assert(a.chosen.len() == 0);
                assert(hnsw::useful(s[0], a.chosen, rank, pair));
            } else if m > 0 {
                assert(a.chosen[0] == s[0]);
            }
        }
        assert forall|q: int| 0 <= q < p.passed.len() implies exists|i: int|
            0 <= i < p.chosen.len() && rank(#[trigger] p.passed[q]) >= pair(
                p.passed[q],
                #[trigger] p.chosen[i],
            ) by {
            if q < a.passed.len() {
                assert(a.passed[q] == p.passed[q]);
                let i = choose|i: int|
                    0 <= i < a.chosen.len() && rank(#[trigger] a.passed[q]) >= pair(
                        a.passed[q],
                        #[trigger] a.chosen[i],
                    );
                assert(p.chosen[i] == a.chosen[i]);
            } else {
                let i = choose|i: int|
                    0 <= i < a.chosen.len() && rank(s[n - 1]) >= pair(
                        s[n - 1],
                        #[trigger] a.chosen[i],
                    );
                assert(p.chosen[i] == a.chosen[i]);
            }
        }
    }
}

proof fn lemma_pick_from(
    s: Seq<u64>,
    n: int,
    m: nat,
    rank: spec_fn(u64) -> u32,
    pair: spec_fn(u64, u64) -> u32,
)
    requires
        0 <= n <= s.len(),
    ensures
        ({
            let p = hnsw::pick(s, n, m, rank, pair);
            let all = p.chosen + p.passed;
            &&& forall|i: int|
                0 <= i < all.len() ==> exists|q: int| 0 <= q < n && #[trigger] s[q] == #[trigger] all[i]
            &&& s.no_duplicates() ==> forall|i: int, j: int|
                0 <= i < j < all.len() ==> #[trigger] all[i] != #[trigger] all[j]
        }),
    decreases n,
{
    if n > 0 {
        lemma_pick_from(s, n - 1, m, rank, pair);
        let a = hnsw::pick(s, n - 1, m, rank, pair);
        let p = hnsw::pick(s, n, m, rank, pair);
        let olds = a.chosen + a.passed;
        let all = p.chosen + p.passed;
        let c = a.chosen.len();
        if p != a {
            let at: int = if p.chosen.len() > c {
                c as int
            } else {
                olds.len() as int
            };
            assert(all =~= olds.insert(at, s[n - 1]));
            assert forall|i: int| 0 <= i < all.len() implies exists|q: int|
                0 <= q < n && #[trigger] s[q] == #[trigger] all[i] by {
                if i == at {
                    assert(s[n - 1] == all[i]);
                } else {
                    let o = if i < at {
                        i
                    } else {
                        i - 1
                    };
                    assert(olds[o] == all[i]);
                    let q = choose|q: int| 0 <= q < n - 1 && #[trigger] s[q] == olds[o];
                    assert(s[q] == all[i]);
                }
            }
            if s.no_duplicates() {
                assert forall|i: int, j: int| 0 <= i < j < all.len() implies #[trigger] all[i]
                    != #[trigger] all[j] by {
                    let oi = if i < at {
                        i
                    } else {
                        i - 1
                    };
                    let oj = if j < at {
                        j
                    } else {
                        j - 1
                    };
                    if i == at {
                        assert(olds[oj] == all[j]);
                        let q = choose|q: int| 0 <= q < n - 1 && #[trigger] s[q] == olds[oj];
                        assert(s[q] != s[n - 1]);
                    } else if j == at {
                        assert(olds[oi] == all[i]);
                        let q = choose|q: int| 0 <= q < n - 1 && #[trigger] s[q] == olds[oi];
                        assert(s[q] != s[n - 1]);
                    } else {
                        assert(olds[oi] == all[i] && olds[oj] == all[j]);
                    }
                }
            }
        }
    }
}

/// The node is no nearer to the query than to one of the first `c`.
pub open spec fn is_beside(
    r: Seq<u64>,
    c: int,
    x: u64,
    rank: spec_fn(u64) -> u32,
    pair: spec_fn(u64, u64) -> u32,
) -> bool {
    exists|i: int| 0 <= i < c && rank(x) >= pair(x, #[trigger] r[i])
}

/// Up to place `c` each node is nearer to the query than to those in front of it, and
/// each behind is no nearer to the query than to one of them.
pub open spec fn is_spread(
    r: Seq<u64>,
    c: int,
    rank: spec_fn(u64) -> u32,
    pair: spec_fn(u64, u64) -> u32,
) -> bool {
    &&& 0 <= c <= r.len()
    &&& forall|i: int, j: int|
        0 <= i < j < c ==> rank(#[trigger] r[j]) < pair(r[j], #[trigger] r[i])
    &&& forall|q: int| c <= q < r.len() ==> is_beside(r, c, #[trigger] r[q], rank, pair)
}

/// Of candidates these are the neighbours to have: candidates that count, `m` of them,
/// or all where there are no more; none twice where none is twice a candidate; the
/// nearest of all stands first; and those that are nearer to another neighbour than to
/// the query stand behind the others.
pub open spec fn is_choice(
    g: HnswView,
    ids: Seq<u64>,
    m: nat,
    rank: spec_fn(u64) -> u32,
    pair: spec_fn(u64, u64) -> u32,
    r: Seq<u64>,
) -> bool {
    let n = ids.filter(|id: u64| g.nodes.contains_key(id) && !g.dead.contains(id)).len();
    &&& r.len() == if n < m {
        n
    } else {
        m
    }
    &&& forall|i: int|
        0 <= i < r.len() ==> ids.contains(#[trigger] r[i]) && g.nodes.contains_key(r[i])
            && !g.dead.contains(r[i])
    &&& ids.no_duplicates() ==> r.no_duplicates()
    &&& forall|x: u64|
        r.len() > 0 && #[trigger] ids.contains(x) && g.nodes.contains_key(x) && !g.dead.contains(x)
            ==> rank(r[0]) <= rank(x)
    &&& exists|c: int| #[trigger] is_spread(r, c, rank, pair)
}

proof fn lemma_spread(
    chosen: Seq<u64>,
    passed: Seq<u64>,
    k: int,
    rank: spec_fn(u64) -> u32,
    pair: spec_fn(u64, u64) -> u32,
)
    requires
        0 <= k <= passed.len(),
        forall|i: int, j: int|
            0 <= i < j < chosen.len() ==> rank(#[trigger] chosen[j]) < pair(
                chosen[j],
                #[trigger] chosen[i],
            ),
        forall|q: int|
            0 <= q < passed.len() ==> exists|i: int|
                0 <= i < chosen.len() && rank(#[trigger] passed[q]) >= pair(
                    passed[q],
                    #[trigger] chosen[i],
                ),
    ensures
        is_spread(chosen + passed.take(k), chosen.len() as int, rank, pair),
{
    let r = chosen + passed.take(k);
    let c = chosen.len() as int;
    assert forall|i: int, j: int| 0 <= i < j < c implies rank(#[trigger] r[j]) < pair(
        r[j],
        #[trigger] r[i],
    ) by {
        assert(r[i] == chosen[i] && r[j] == chosen[j]);
    }
    assert forall|q: int| c <= q < r.len() implies is_beside(
        r,
        c,
        #[trigger] r[q],
        rank,
        pair,
    ) by {
        assert(r[q] == passed[q - c]);
        let i = choose|i: int|
            0 <= i < chosen.len() && rank(passed[q - c]) >= pair(
                passed[q - c],
                #[trigger] chosen[i],
            );
        assert(r[i] == chosen[i]);
    }
}

/// The neighbours that are chosen are candidates that count: `m` of them, or all where
/// there are no more; none twice where none is twice a candidate; and the nearest of
/// all stands first. Those that are nearer to another of them than to the query stand
/// behind.
pub proof fn lemma_chosen_neighbours(
    g: HnswView,
    ids: Seq<u64>,
    m: nat,
    rank: spec_fn(u64) -> u32,
    pair: spec_fn(u64, u64) -> u32,
)
    ensures
        ({
            let r = hnsw::selected(g, ids, m, rank, pair);
            let n = ids.filter(|id: u64| g.nodes.contains_key(id) && !g.dead.contains(id)).len();
            &&& r.len() == if n < m {
                n
            } else {
                m
            }
            &&& forall|i: int|
                0 <= i < r.len() ==> ids.contains(#[trigger] r[i]) && g.nodes.contains_key(r[i])
                    && !g.dead.contains(r[i])
            &&& ids.no_duplicates() ==> r.no_duplicates()
            &&& forall|x: u64|
                r.len() > 0 && #[trigger] ids.contains(x) && g.nodes.contains_key(x)
                    && !g.dead.contains(x) ==> rank(r[0]) <= rank(x)
            &&& is_choice(g, ids, m, rank, pair, r)
        }),
{
    broadcast use vstd::seq_lib::group_to_multiset_ensures;

    let l = hnsw::live_of(g, ids);
    let s = hnsw::ranked(l, rank);
    let r = hnsw::selected(g, ids, m, rank, pair);
    let p = hnsw::pick(s, s.len() as int, m, rank, pair);
    let all = p.chosen + p.passed;
    lemma_live_of_is_a_filter(g, ids);
    lemma_live_of(g, ids);
    lemma_ranked(l, rank);
    lemma_pick(s, s.len() as int, m, rank, pair);
    lemma_pick_from(s, s.len() as int, m, rank, pair);
    assert(r =~= all.take(r.len() as int));
    assert forall|x: u64| #[trigger] s.contains(x) <==> l.contains(x) by {
        assert(s.to_multiset().count(x) == l.to_multiset().count(x));
    }
    if l.no_duplicates() {
        lemma_same_are_distinct(l, s);
    }
    assert forall|i: int| 0 <= i < r.len() implies ids.contains(#[trigger] r[i])
        && g.nodes.contains_key(r[i]) && !g.dead.contains(r[i]) by {
        assert(all[i] == r[i]);
        let q = choose|q: int| 0 <= q < s.len() && #[trigger] s[q] == all[i];
        assert(s.contains(r[i]));
        assert(l.contains(r[i]));
    }
    if ids.no_duplicates() {
        assert forall|i: int, j: int|
            0 <= i < r.len() && 0 <= j < r.len() && i != j implies r[i] != r[j] by {
            assert(all[i] == r[i] && all[j] == r[j]);
        }
    }
    assert forall|x: u64|
        r.len() > 0 && #[trigger] ids.contains(x) && g.nodes.contains_key(x) && !g.dead.contains(
            x,
        ) implies rank(r[0]) <= rank(x) by {
        assert(l.contains(x));
        assert(s.contains(x));
        let q = choose|q: int| 0 <= q < s.len() && s[q] == x;
        assert(r[0] == s[0]);
        if q > 0 {
            assert(rank(s[0]) <= rank(s[q]));
        }
    }
    let k = r.len() - p.chosen.len();
    assert(r =~= p.chosen + p.passed.take(k));
    lemma_spread(p.chosen, p.passed, k, rank, pair);
}

proof fn lemma_same_are_distinct(a: Seq<u64>, b: Seq<u64>)
    requires
        a.no_duplicates(),
        a.to_multiset() == b.to_multiset(),
    ensures
        b.no_duplicates(),
{
    broadcast use vstd::seq_lib::group_to_multiset_ensures;

    a.lemma_multiset_has_no_duplicates();
    assert forall|x: u64| b.to_multiset().count(x) <= 1 by {
        if b.to_multiset().count(x) > 0 {
            assert(a.to_multiset().contains(x));
        }
    }
    b.lemma_multiset_has_no_duplicates_conv();
}

// ----------------------------------------------------------------------
// Inserting
// ----------------------------------------------------------------------
/// Where the edges of a node lead on a layer.
pub open spec fn edges_on(layer: Map<u64, Seq<u64>>, id: u64) -> Seq<u64> {
    if layer.contains_key(id) {
        layer[id]
    } else {
        Seq::empty()
    }
}

/// No node of the layer has more than `m` edges.
pub open spec fn is_bounded(layer: Map<u64, Seq<u64>>, m: nat) -> bool {
    forall|id: u64| (#[trigger] edges_on(layer, id)).len() <= m
}

proof fn lemma_back_link(
    g: HnswView,
    layer: Map<u64, Seq<u64>>,
    id: u64,
    nb: u64,
    m: nat,
    pair: spec_fn(u64, u64) -> u32,
)
    ensures
        ({
            let t = hnsw::back_link(g, layer, id, nb, m, pair);
            &&& edges_on(layer, nb).len() < m ==> edges_on(t, nb) == edges_on(layer, nb).push(id)
            &&& edges_on(layer, nb).len() >= m ==> is_choice(
                g,
                edges_on(layer, nb).push(id),
                m,
                |v: u64| pair(nb, v),
                pair,
                edges_on(t, nb),
            )
            &&& forall|x: u64| x != nb ==> #[trigger] edges_on(t, x) == edges_on(layer, x)
            &&& forall|x: u64| #[trigger] t.contains_key(x) <==> layer.contains_key(x) || x == nb
            &&& is_bounded(layer, m) ==> is_bounded(t, m)
        }),
{
    let t = hnsw::back_link(g, layer, id, nb, m, pair);
    let edges = edges_on(layer, nb).push(id);
    lemma_chosen_neighbours(g, edges, m, hnsw::rank_from(pair, nb), pair);
    assert(hnsw::rank_from(pair, nb) =~= |v: u64| pair(nb, v));
    assert forall|x: u64| x != nb implies #[trigger] edges_on(t, x) == edges_on(layer, x) by {}
    if is_bounded(layer, m) {
        assert forall|x: u64| (#[trigger] edges_on(t, x)).len() <= m by {
            if x != nb {
                assert(edges_on(layer, x).len() <= m);
            }
        }
    }
}

proof fn lemma_linked_is_bounded(
    g: HnswView,
    layer: Map<u64, Seq<u64>>,
    id: u64,
    nbs: Seq<u64>,
    n: int,
    m: nat,
    pair: spec_fn(u64, u64) -> u32,
)
    requires
        is_bounded(layer, m),
        nbs.len() <= m,
    ensures
        is_bounded(hnsw::linked(g, layer, id, nbs, n, m, pair), m),
    decreases n,
{
    if n <= 0 {
        let t = layer.insert(id, nbs);
        assert forall|x: u64| (#[trigger] edges_on(t, x)).len() <= m by {
            if x != id {
                assert(edges_on(layer, x).len() <= m);
            }
        }
    } else {
        lemma_linked_is_bounded(g, layer, id, nbs, n - 1, m, pair);
        lemma_back_link(
            g,
            hnsw::linked(g, layer, id, nbs, n - 1, m, pair),
            id,
            nbs[n - 1],
            m,
            pair,
        );
    }
}

proof fn lemma_linked(
    g: HnswView,
    layer: Map<u64, Seq<u64>>,
    id: u64,
    nbs: Seq<u64>,
    n: int,
    m: nat,
    pair: spec_fn(u64, u64) -> u32,
    x: u64,
)
    requires
        0 <= n <= nbs.len(),
        nbs.no_duplicates(),
        !nbs.contains(id),
    ensures
        ({
            let t = hnsw::linked(g, layer, id, nbs, n, m, pair);
            &&& edges_on(t, id) == nbs
            &&& x != id && !nbs.take(n).contains(x) ==> edges_on(t, x) == edges_on(layer, x)
            &&& nbs.take(n).contains(x) && edges_on(layer, x).len() < m ==> edges_on(t, x)
                == edges_on(layer, x).push(id)
            &&& nbs.take(n).contains(x) && edges_on(layer, x).len() >= m ==> is_choice(
                g,
                edges_on(layer, x).push(id),
                m,
                |v: u64| pair(x, v),
                pair,
                edges_on(t, x),
            )
        }),
    decreases n,
{
    if n > 0 {
        let nb = nbs[n - 1];
        let less = nbs.take(n - 1);
        let now = nbs.take(n);
        let a = hnsw::linked(g, layer, id, nbs, n - 1, m, pair);
        lemma_linked(g, layer, id, nbs, n - 1, m, pair, x);
        lemma_linked(g, layer, id, nbs, n - 1, m, pair, nb);
        lemma_back_link(g, a, id, nb, m, pair);
        assert(nbs.contains(nb));
        assert(now[n - 1] == nb);
        assert(!less.contains(nb)) by {
            if less.contains(nb) {
                let i = choose|i: int| 0 <= i < less.len() && less[i] == nb;
                assert(nbs[i] == nbs[n - 1]);
            }
        }
        if less.contains(x) {
            let i = choose|i: int| 0 <= i < less.len() && less[i] == x;
            assert(now[i] == x);
        }
        if now.contains(x) && x != nb {
            let i = choose|i: int| 0 <= i < now.len() && now[i] == x;
            assert(less[i] == x);
        }
    } else {
        assert(nbs.take(0) =~= Seq::empty());
    }
}

/// A new node gets edges on a layer to nodes that the search has found and that count:
/// as many as a node may have, or all of them, the nearest first. Each of these that has
/// room for it gets an edge back, and one that has none chooses anew among its edges and
/// the new one; all other edges stay.
pub proof fn lemma_new_node_is_linked(
    g: HnswView,
    id: u64,
    layer: int,
    found: Seq<u64>,
    pair: spec_fn(u64, u64) -> u32,
    x: u64,
)
    requires
        0 <= layer < g.layers.len(),
        found.no_duplicates(),
        !found.contains(id),
    ensures
        ({
            let t = hnsw::joined(g, id, layer, found, pair);
            let m = if layer == 0 {
                g.config.m0 as nat
            } else {
                g.config.m as nat
            };
            let n = found.filter(|v: u64| g.nodes.contains_key(v) && !g.dead.contains(v)).len();
            let mine = t.edges(layer, id);
            &&& mine.len() == if n < m {
                n
            } else {
                m
            }
            &&& mine.no_duplicates()
            &&& mine.contains(x) ==> found.contains(x) && g.nodes.contains_key(x)
                && !g.dead.contains(x)
            &&& found.contains(x) && g.nodes.contains_key(x) && !g.dead.contains(x) && m > 0
                ==> mine.len() > 0 && pair(id, mine[0]) <= pair(id, x)
            &&& mine.contains(x) && g.edges(layer, x).len() < m ==> t.edges(layer, x) == g.edges(
                layer,
                x,
            ).push(id)
            &&& mine.contains(x) && g.edges(layer, x).len() >= m ==> is_choice(
                g,
                g.edges(layer, x).push(id),
                m,
                |v: u64| pair(x, v),
                pair,
                t.edges(layer, x),
            )
            &&& is_choice(g, found, m, |v: u64| pair(id, v), pair, mine)
            &&& x != id && !mine.contains(x) ==> t.edges(layer, x) == g.edges(layer, x)
            &&& forall|l: int|
                0 <= l < g.layers.len() && l != layer ==> #[trigger] t.layers[l] == g.layers[l]
        }),
{
    let m = hnsw::edge_limit(g, layer);
    let rank = hnsw::rank_from(pair, id);
    let nbs = hnsw::selected(g, found, m, rank, pair);
    let t = hnsw::joined(g, id, layer, found, pair);
    lemma_chosen_neighbours(g, found, m, rank, pair);
    assert(!nbs.contains(id)) by {
        if nbs.contains(id) {
            let i = choose|i: int| 0 <= i < nbs.len() && nbs[i] == id;
            assert(found.contains(nbs[i]));
        }
    }
    assert(rank =~= |v: u64| pair(id, v));
    lemma_linked(g, g.layers[layer], id, nbs, nbs.len() as int, m, pair, x);
    assert(nbs.take(nbs.len() as int) =~= nbs);
    assert forall|y: u64| #[trigger] t.edges(layer, y) == edges_on(t.layers[layer], y) by {}
    assert(t.edges(layer, id) == nbs);
    assert(t.edges(layer, x) == edges_on(t.layers[layer], x));
    assert(g.edges(layer, x) == edges_on(g.layers[layer], x));
    if nbs.contains(x) {
        let i = choose|i: int| 0 <= i < nbs.len() && nbs[i] == x;
        assert(found.contains(nbs[i]));
    }
    if found.contains(x) && g.nodes.contains_key(x) && !g.dead.contains(x) && m > 0 {
        lemma_some_count(g, found, x);
        assert(nbs.len() > 0);
        assert(rank(nbs[0]) <= rank(x));
        assert(rank(nbs[0]) == pair(id, nbs[0]) && rank(x) == pair(id, x));
    }
}

proof fn lemma_some_count(g: HnswView, ids: Seq<u64>, x: u64)
    requires
        ids.contains(x),
        g.nodes.contains_key(x) && !g.dead.contains(x),
    ensures
        ids.filter(|v: u64| g.nodes.contains_key(v) && !g.dead.contains(v)).len() > 0,
{
    lemma_live_of_is_a_filter(g, ids);
    lemma_live_of(g, ids);
    assert(hnsw::live_of(g, ids).contains(x));
}

/// The edges of every node of the graph are within what is set.
pub open spec fn is_graph_bounded(g: HnswView) -> bool {
    forall|l: int|
        0 <= l < g.layers.len() ==> is_bounded(
            #[trigger] g.layers[l],
            if l == 0 {
                g.config.m0 as nat
            } else {
                g.config.m as nat
            },
        )
}

proof fn lemma_connected(
    g: HnswView,
    id: u64,
    layer: int,
    seeds: Seq<u64>,
    pair: spec_fn(u64, u64) -> u32,
    l: int,
)
    requires
        layer < g.layers.len(),
    ensures
        ({
            let t = hnsw::connected(g, id, layer, seeds, pair);
            &&& t == (HnswView { layers: t.layers, ..g })
            &&& t.layers.len() == g.layers.len()
            &&& layer < l < g.layers.len() ==> t.layers[l] == g.layers[l]
            &&& 0 <= l <= layer ==> t.layers[l].contains_key(id)
            &&& is_graph_bounded(g) ==> is_graph_bounded(t)
        }),
    decreases layer + 1,
{
    if layer >= 0 {
        let w = walk::found(
            g.field(hnsw::rank_from(pair, id), seeds, layer),
            hnsw::build_width(g),
        );
        let j = hnsw::joined(g, id, layer, w, pair);
        let m = hnsw::edge_limit(g, layer);
        let nbs = hnsw::selected(g, w, m, hnsw::rank_from(pair, id), pair);
        lemma_chosen_neighbours(g, w, m, hnsw::rank_from(pair, id), pair);
        lemma_linked_keys(g, g.layers[layer], id, nbs, nbs.len() as int, m, pair);
        if is_graph_bounded(g) {
            assert(is_bounded(g.layers[layer], m));
            lemma_linked_is_bounded(g, g.layers[layer], id, nbs, nbs.len() as int, m, pair);
            assert forall|k: int| 0 <= k < j.layers.len() implies is_bounded(
                #[trigger] j.layers[k],
                if k == 0 {
                    j.config.m0 as nat
                } else {
                    j.config.m as nat
                },
            ) by {
                if k != layer {
                    assert(j.layers[k] == g.layers[k]);
                }
            }
        }
        lemma_connected(j, id, layer - 1, w, pair, l);
    }
}

proof fn lemma_linked_keys(
    g: HnswView,
    layer: Map<u64, Seq<u64>>,
    id: u64,
    nbs: Seq<u64>,
    n: int,
    m: nat,
    pair: spec_fn(u64, u64) -> u32,
)
    ensures
        hnsw::linked(g, layer, id, nbs, n, m, pair).contains_key(id),
    decreases n,
{
    if n > 0 {
        lemma_linked_keys(g, layer, id, nbs, n - 1, m, pair);
        lemma_back_link(
            g,
            hnsw::linked(g, layer, id, nbs, n - 1, m, pair),
            id,
            nbs[n - 1],
            m,
            pair,
        );
    }
}

/// A node that was inserted is there and counts, and the others count as they did; it
/// has its place on every layer from the lowest up to the one that it was to reach, but
/// to no more than one above the others. Where it reaches above all others, or is the
/// first, searches begin at it. No node has more edges than it may.
pub proof fn lemma_insert(
    g: HnswView,
    id: u64,
    level: usize,
    pair: spec_fn(u64, u64) -> u32,
    l: int,
    x: u64,
)
    requires
        g.wf(),
        g.entry_layer < usize::MAX,
        is_graph_bounded(g),
    ensures
        ({
            let t = hnsw::inserted(g, id, level, pair);
            let top = if level <= g.entry_layer {
                level as int
            } else {
                g.entry_layer + 1
            };
            &&& t.nodes == g.nodes.insert(id, top as usize)
            &&& t.nodes.contains_key(id) && !t.dead.contains(id)
            &&& x != id ==> (t.nodes.contains_key(x) <==> g.nodes.contains_key(x)) && (
            t.dead.contains(x) <==> g.dead.contains(x))
            &&& g.entry_point is None || top > g.entry_layer ==> t.entry_point == Some(id)
                && t.entry_layer == top
            &&& g.entry_point is Some && top <= g.entry_layer ==> t.entry_point == g.entry_point
                && t.entry_layer == g.entry_layer
            &&& t.layers.len() > top
            &&& 0 <= l <= top ==> t.layers[l].contains_key(id)
            &&& is_graph_bounded(t)
        }),
{
    let top = hnsw::capped(g, level);
    let a = hnsw::added(g, id, top);
    let t = hnsw::inserted(g, id, level, pair);
    assert(is_graph_bounded(a)) by {
        assert forall|k: int| 0 <= k < a.layers.len() implies is_bounded(
            #[trigger] a.layers[k],
            if k == 0 {
                a.config.m0 as nat
            } else {
                a.config.m as nat
            },
        ) by {
            if k < g.layers.len() {
                assert(a.layers[k] == g.layers[k]);
            }
        }
    }
    match g.entry_point {
        None => {
            lemma_with_node(a, id, 0, top);
            let w = HnswView { layers: hnsw::with_node(a.layers, id, 0, top), ..a };
            assert(t.layers == w.layers && t.config == w.config);
            assert(is_graph_bounded(t));
            if 0 <= l <= top {
                assert(t.layers[l] == a.layers[l].insert(id, Seq::empty()));
            }
        },
        Some(ep) => {
            let near = hnsw::descended(
                a,
                hnsw::rank_from(pair, id),
                ep,
                g.entry_layer as int,
                top + 1,
            );
            let start = hnsw::lesser(top, g.entry_layer as int);
            let c = hnsw::connected(a, id, start, seq![near], pair);
            lemma_connected(a, id, start, seq![near], pair, l);
            assert(start == top || start == g.entry_layer);
            assert(c.entry_layer == g.entry_layer && c.layers.len() > top);
            if top > g.entry_layer {
                lemma_with_node(c, id, g.entry_layer + 1, top);
                let w = HnswView {
                    layers: hnsw::with_node(c.layers, id, g.entry_layer + 1, top),
                    ..c
                };
                assert(t.layers == w.layers && t.config == w.config);
                assert(is_graph_bounded(t));
                if 0 <= l <= top {
                    if l <= g.entry_layer {
                        assert(t.layers[l] == c.layers[l]);
                    } else {
                        assert(t.layers[l] == c.layers[l].insert(id, Seq::empty()));
                    }
                }
            } else {
                assert(t == c);
            }
        },
    }
}

proof fn lemma_with_node(g: HnswView, id: u64, from: int, to: int)
    requires
        is_graph_bounded(g),
    ensures
        is_graph_bounded(HnswView { layers: hnsw::with_node(g.layers, id, from, to), ..g }),
{
    let t = HnswView { layers: hnsw::with_node(g.layers, id, from, to), ..g };
    assert forall|k: int| 0 <= k < t.layers.len() implies is_bounded(
        #[trigger] t.layers[k],
        if k == 0 {
            t.config.m0 as nat
        } else {
            t.config.m as nat
        },
    ) by {
        let m = if k == 0 {
            t.config.m0 as nat
        } else {
            t.config.m as nat
        };
        assert(is_bounded(g.layers[k], m));
        assert forall|y: u64| (#[trigger] edges_on(t.layers[k], y)).len() <= m by {
            assert(edges_on(g.layers[k], y).len() <= m);
        }
    }
}

/// The search for the neighbours of a new node keeps as many nodes as is set, and at
/// least one.
pub proof fn lemma_build_is_wide_enough(g: HnswView)
    ensures
        hnsw::build_width(g) >= g.config.ef_construction,
        hnsw::build_width(g) >= 1,
        hnsw::build_width(g) == 1 || hnsw::build_width(g) == g.config.ef_construction,
{
}

/// No edge of the layer leads to the node.
pub open spec fn is_unlinked(g: HnswView, layer: int, id: u64) -> bool {
    forall|x: u64| !(#[trigger] g.edges(layer, x)).contains(id)
}

proof fn lemma_not_found(f: Field, p: Pace, id: u64)
    requires
        f.live.finite(),
        p.width > 0,
        !f.seeds.contains(id),
        forall|x: u64| !(#[trigger] (f.edges)(x)).contains(id),
    ensures
        !walk::found_by(f, p).contains(id),
{
    let r = walk::found_by(f, p);
    walk::lemma_found_is_beam(f, p);
    if r.contains(id) {
        let i = choose|i: int| 0 <= i < r.len() && r[i] == id;
        assert(walk::reachable(f, r[i]));
        let path = choose|path: Seq<u64>| walk::is_path(f, path, id);
        if path.len() > 1 {
            let k = path.len() - 2;
            assert((f.edges)(path[k]).contains(path[k + 1]));
        }
    }
}

/// A new node that nothing leads to yet is joined to a layer where the search ends: its
/// first neighbour is no farther than any node that the search began at, nor than any
/// that the edges of this neighbour led to; and all that it finds there is where the
/// search on the layer below begins.
pub proof fn lemma_new_node_meets_the_nearest(
    g: HnswView,
    id: u64,
    layer: int,
    seeds: Seq<u64>,
    pair: spec_fn(u64, u64) -> u32,
    x: u64,
)
    requires
        g.nodes.dom().finite(),
        0 <= layer < g.layers.len(),
        is_unlinked(g, layer, id),
        !seeds.contains(id),
        g.nodes.contains_key(x) && !g.dead.contains(x),
        if layer == 0 {
            g.config.m0 > 0
        } else {
            g.config.m > 0
        },
    ensures
        ({
            let t = hnsw::connected(g, id, layer, seeds, pair);
            let mine = t.edges(layer, id);
            &&& seeds.contains(x) ==> mine.len() > 0 && pair(id, mine[0]) <= pair(id, x)
            &&& mine.len() > 0 && g.edges(layer, mine[0]).contains(x) ==> pair(id, mine[0])
                <= pair(id, x)
        }),
{
    let rank = hnsw::rank_from(pair, id);
    let f = g.field(rank, seeds, layer);
    let p = walk::one_by_one(hnsw::build_width(g));
    let w = walk::found_by(f, p);
    let j = hnsw::joined(g, id, layer, w, pair);
    let t = hnsw::connected(g, id, layer, seeds, pair);
    assert forall|y: u64| !(#[trigger] (f.edges)(y)).contains(id) by {
        assert(!g.edges(layer, y).contains(id));
    }
    lemma_not_found(f, p, id);
    walk::lemma_found_is_beam(f, p);
    lemma_build_is_wide_enough(g);
    assert(t == hnsw::connected(j, id, layer - 1, w, pair));
    lemma_connected(j, id, layer - 1, w, pair, layer);
    assert(t.layers[layer] == j.layers[layer]);
    let mine = t.edges(layer, id);
    assert(mine == j.edges(layer, id));
    lemma_new_node_is_linked(g, id, layer, w, pair, x);
    assert(f.live.contains(x));
    if seeds.contains(x) {
        assert(walk::beside(w, f, x));
        if !w.contains(x) {
            let y = w[w.len() - 1];
            assert(f.live.contains(w[w.len() - 1]));
            assert(w.contains(y));
            lemma_new_node_is_linked(g, id, layer, w, pair, y);
            assert((f.rank)(x) >= (f.rank)(y));
        }
    }
    if mine.len() > 0 && g.edges(layer, mine[0]).contains(x) {
        let a = mine[0];
        assert(mine.contains(a));
        lemma_new_node_is_linked(g, id, layer, w, pair, a);
        let i = choose|i: int| 0 <= i < w.len() && w[i] == a;
        assert((f.edges)(w[i]).contains(x));
        assert(walk::beside(w, f, x));
        if !w.contains(x) {
            let y = w[w.len() - 1];
            assert(f.live.contains(w[w.len() - 1]));
            assert(w.contains(y));
            lemma_new_node_is_linked(g, id, layer, w, pair, y);
            assert((f.rank)(x) >= (f.rank)(y));
        }
    }
}

/// From layer to layer a new node that nothing leads to yet comes no farther from its
/// neighbours: its first neighbour on a layer is no farther than any that it has on the
/// layer above.
pub proof fn lemma_layers_come_nearer(
    g: HnswView,
    id: u64,
    layer: int,
    seeds: Seq<u64>,
    pair: spec_fn(u64, u64) -> u32,
    x: u64,
)
    requires
        g.nodes.dom().finite(),
        1 <= layer < g.layers.len(),
        is_unlinked(g, layer, id),
        is_unlinked(g, layer - 1, id),
        !seeds.contains(id),
        g.config.m0 > 0,
        g.config.m > 0,
        hnsw::connected(g, id, layer, seeds, pair).edges(layer, id).contains(x),
    ensures
        ({
            let t = hnsw::connected(g, id, layer, seeds, pair);
            let mine = t.edges(layer - 1, id);
            mine.len() > 0 && pair(id, mine[0]) <= pair(id, x)
        }),
{
    let rank = hnsw::rank_from(pair, id);
    let f = g.field(rank, seeds, layer);
    let p = walk::one_by_one(hnsw::build_width(g));
    let w = walk::found_by(f, p);
    let j = hnsw::joined(g, id, layer, w, pair);
    let t = hnsw::connected(g, id, layer, seeds, pair);
    assert forall|y: u64| !(#[trigger] (f.edges)(y)).contains(id) by {
        assert(!g.edges(layer, y).contains(id));
    }
    lemma_not_found(f, p, id);
    walk::lemma_found_is_beam(f, p);
    assert(t == hnsw::connected(j, id, layer - 1, w, pair));
    lemma_connected(j, id, layer - 1, w, pair, layer);
    assert(t.edges(layer, id) == j.edges(layer, id));
    lemma_new_node_is_linked(g, id, layer, w, pair, x);
    assert(w.contains(x));
    assert(j.layers[layer - 1] == g.layers[layer - 1]);
    assert(is_unlinked(j, layer - 1, id)) by {
        assert forall|y: u64| !(#[trigger] j.edges(layer - 1, y)).contains(id) by {
            assert(j.edges(layer - 1, y) == g.edges(layer - 1, y));
        }
    }
    lemma_new_node_meets_the_nearest(j, id, layer - 1, w, pair, x);
}

// ----------------------------------------------------------------------
// Counting edges
// ----------------------------------------------------------------------
proof fn lemma_edge_sum_remove(m: Map<u64, Seq<u64>>, ks: Seq<u64>, i: int)
    requires
        0 <= i < ks.len(),
    ensures
        hnsw::edge_sum(m, ks) == hnsw::edge_sum(m, ks.remove(i)) + m[ks[i]].len(),
    decreases ks.len(),
{
    let front = ks.drop_last();
    if i == ks.len() - 1 {
        assert(ks.remove(i) =~= front);
    } else {
        lemma_edge_sum_remove(m, front, i);
        assert(ks.remove(i).drop_last() =~= front.remove(i));
        assert(ks.remove(i).last() == ks.last());
        assert(front[i] == ks[i]);
    }
}

proof fn lemma_edge_sum_same(m: Map<u64, Seq<u64>>, a: Seq<u64>, b: Seq<u64>)
    requires
        a.no_duplicates(),
        b.no_duplicates(),
        a.to_set() == b.to_set(),
    ensures
        hnsw::edge_sum(m, a) == hnsw::edge_sum(m, b),
    decreases a.len(),
{
    a.unique_seq_to_set();
    b.unique_seq_to_set();
    if a.len() > 0 {
        let x = a.last();
        assert(a.contains(a[a.len() - 1]));
        assert(b.to_set().contains(x));
        let i = choose|i: int| 0 <= i < b.len() && b[i] == x;
        let c = b.remove(i);
        let front = a.drop_last();
        lemma_edge_sum_remove(m, b, i);
        assert forall|y: u64| #[trigger] front.to_set().contains(y) <==> c.to_set().contains(y) by {
            if front.contains(y) {
                let k = choose|k: int| 0 <= k < front.len() && front[k] == y;
                assert(a[k] == y && a[k] != a[a.len() - 1]);
                assert(a.to_set().contains(y));
                let j = choose|j: int| 0 <= j < b.len() && b[j] == y;
                if j < i {
                    assert(c[j] == y);
                } else {
                    assert(c[j - 1] == y);
                }
            }
            if c.contains(y) {
                let j = choose|j: int| 0 <= j < c.len() && c[j] == y;
                let q = if j < i {
                    j
                } else {
                    j + 1
                };
                assert(b[q] == y && b[q] != b[i]);
                assert(b.to_set().contains(y));
                let k = choose|k: int| 0 <= k < a.len() && a[k] == y;
                assert(front[k] == y);
            }
        }
        assert(front.to_set() =~= c.to_set());
        lemma_edge_sum_same(m, front, c);
    }
}

/// A layer has one number of edges; and a node that it did not have adds those that
/// it comes with.
pub proof fn lemma_edges_are_counted(
    m: Map<u64, Seq<u64>>,
    a: nat,
    b: nat,
    id: u64,
    edges: Seq<u64>,
)
    requires
        hnsw::has_edges(m, a),
    ensures
        hnsw::has_edges(m, b) ==> a == b,
        !m.contains_key(id) ==> hnsw::has_edges(m.insert(id, edges), a + edges.len()),
        hnsw::has_edges(Map::<u64, Seq<u64>>::empty(), 0),
{
    let ks = choose|ks: Seq<u64>| #[trigger] hnsw::lists(ks, m) && hnsw::edge_sum(m, ks) == a;
    if hnsw::has_edges(m, b) {
        let js = choose|js: Seq<u64>| #[trigger] hnsw::lists(js, m) && hnsw::edge_sum(m, js) == b;
        lemma_edge_sum_same(m, ks, js);
    }
    if !m.contains_key(id) {
        let t = m.insert(id, edges);
        let more = ks.push(id);
        assert forall|y: u64| #[trigger] more.to_set().contains(y) <==> t.dom().contains(y) by {
            if ks.contains(y) {
                let k = choose|k: int| 0 <= k < ks.len() && ks[k] == y;
                assert(more[k] == y);
                assert(ks.to_set().contains(y));
            }
            if y == id {
                assert(more[ks.len() as int] == y);
            }
            if more.contains(y) && y != id {
                let k = choose|k: int| 0 <= k < more.len() && more[k] == y;
                assert(ks[k] == y);
                assert(ks.to_set().contains(y));
            }
            if t.dom().contains(y) && y != id {
                assert(ks.to_set().contains(y));
            }
        }
        assert(more.to_set() =~= t.dom());
        assert(!ks.contains(id)) by {
            if ks.contains(id) {
                assert(ks.to_set().contains(id));
            }
        }
        assert(more.no_duplicates());
        assert(hnsw::lists(more, t));
        assert(more.drop_last() =~= ks);
        lemma_edge_sum_frame(m, t, ks, id);
    }
    let none = Seq::<u64>::empty();
    assert(none.to_set() =~= Map::<u64, Seq<u64>>::empty().dom());
    assert(hnsw::lists(none, Map::empty()));
}

proof fn lemma_edge_sum_frame(
    m: Map<u64, Seq<u64>>,
    t: Map<u64, Seq<u64>>,
    ks: Seq<u64>,
    id: u64,
)
    requires
        !ks.contains(id),
        forall|y: u64| y != id ==> #[trigger] t[y] == m[y],
    ensures
        hnsw::edge_sum(t, ks) == hnsw::edge_sum(m, ks),
    decreases ks.len(),
{
    if ks.len() > 0 {
        assert(ks.contains(ks[ks.len() - 1]));
        let front = ks.drop_last();
        assert(!front.contains(id)) by {
            if front.contains(id) {
                let k = choose|k: int| 0 <= k < front.len() && front[k] == id;
                assert(ks[k] == id);
            }
        }
        lemma_edge_sum_frame(m, t, front, id);
    }
}

} // verus!
