//! What the graph on disk is built of, in terms of the nodes and their distances.
use crate::index::hnsw;
use crate::index::hnsw_laws;
use crate::index::vamana;
use crate::index::vamana::{Edges, Gauge};
use crate::index::walk;
use vstd::prelude::*;

verus! {

// ----------------------------------------------------------------------
// Lists
// ----------------------------------------------------------------------
/// What is not covered is kept, in its order.
pub proof fn lemma_uncovered_is_a_filter(s: Seq<u64>, by: u64, covers: spec_fn(u64, u64) -> bool)
    ensures
        vamana::uncovered(s, by, covers) == s.filter(|v: u64| !covers(by, v)),
    decreases s.len(),
{
    reveal(Seq::filter);
    if s.len() > 0 {
        lemma_uncovered_is_a_filter(s.drop_last(), by, covers);
    }
}

proof fn lemma_uncovered(s: Seq<u64>, by: u64, covers: spec_fn(u64, u64) -> bool, x: u64)
    ensures
        vamana::uncovered(s, by, covers).contains(x) <==> s.contains(x) && !covers(by, x),
    decreases s.len(),
{
    if s.len() > 0 {
        let front = s.drop_last();
        let y = s.last();
        lemma_uncovered(front, by, covers, x);
        let a = vamana::uncovered(front, by, covers);
        let b = vamana::uncovered(s, by, covers);
        assert(s =~= front.push(y));
        lemma_push_has(front, y, x);
        lemma_push_has(a, y, x);
    }
}

proof fn lemma_push_has(s: Seq<u64>, y: u64, x: u64)
    ensures
        s.push(y).contains(x) <==> s.contains(x) || x == y,
{
    let b = s.push(y);
    if s.contains(x) {
        let i = choose|i: int| 0 <= i < s.len() && s[i] == x;
        assert(b[i] == x);
    }
    if x == y {
        assert(b[s.len() as int] == x);
    }
    if b.contains(x) && x != y {
        let i = choose|i: int| 0 <= i < b.len() && b[i] == x;
        assert(s[i] == x);
    }
}

/// Numbers that are put behind others are there once each, but for the one that is left
/// out.
pub proof fn lemma_merged(have: Seq<u64>, more: Seq<u64>, skip: u64, x: u64)
    ensures
        vamana::merged(have, more, skip).contains(x) <==> have.contains(x) || (more.contains(x) && x
            != skip),
        have.no_duplicates() ==> vamana::merged(have, more, skip).no_duplicates(),
    decreases more.len(),
{
    if more.len() > 0 {
        let less = more.drop_last();
        let y = more.last();
        lemma_merged(have, less, skip, x);
        lemma_merged(have, less, skip, y);
        let front = vamana::merged(have, less, skip);
        assert(more =~= less.push(y));
        lemma_push_has(less, y, x);
        lemma_push_has(front, y, x);
        let out = front.push(y);
        if !front.contains(y) && have.no_duplicates() {
            assert forall|i: int, j: int|
                0 <= i < out.len() && 0 <= j < out.len() && i != j implies out[i] != out[j] by {
                if i == front.len() {
                    assert(front.contains(out[j]));
                } else if j == front.len() {
                    assert(front.contains(out[i]));
                }
            }
        }
    }
}

/// The candidates that are known are kept, in their order.
pub proof fn lemma_known_of(known: Set<u64>, ids: Seq<u64>, x: u64)
    ensures
        vamana::known_of(known, ids).contains(x) <==> ids.contains(x) && known.contains(x),
        vamana::known_of(known, ids) == ids.filter(|v: u64| known.contains(v)),
    decreases ids.len(),
{
    reveal(Seq::filter);
    if ids.len() > 0 {
        let front = ids.drop_last();
        let y = ids.last();
        lemma_known_of(known, front, x);
        assert(ids =~= front.push(y));
        lemma_push_has(front, y, x);
        lemma_push_has(vamana::known_of(known, front), y, x);
    }
}

/// All numbers but one are kept, in their order.
pub proof fn lemma_others(ids: Seq<u64>, id: u64, x: u64)
    ensures
        vamana::others(ids, id).contains(x) <==> ids.contains(x) && x != id,
        vamana::others(ids, id) == ids.filter(|v: u64| v != id),
    decreases ids.len(),
{
    reveal(Seq::filter);
    if ids.len() > 0 {
        let front = ids.drop_last();
        let y = ids.last();
        lemma_others(front, id, x);
        assert(ids =~= front.push(y));
        lemma_push_has(front, y, x);
        lemma_push_has(vamana::others(front, id), y, x);
    }
}

// ----------------------------------------------------------------------
// Pruning
// ----------------------------------------------------------------------
/// Of candidates at most `r` are taken, the first one first; none that one taken before
/// it covers; and one that is not taken is covered by one that is, unless `r` are taken.
pub proof fn lemma_pruned(s: Seq<u64>, r: nat, covers: spec_fn(u64, u64) -> bool, x: u64)
    ensures
        ({
            let t = vamana::pruned(s, r, covers);
            &&& t.len() <= r
            &&& s.len() > 0 && r > 0 ==> t.len() > 0 && t[0] == s[0]
            &&& t.contains(x) ==> s.contains(x)
            &&& forall|i: int, j: int|
                0 <= i < j < t.len() ==> !covers(#[trigger] t[i], #[trigger] t[j])
            &&& s.contains(x) && !t.contains(x) ==> t.len() == r || exists|i: int|
                0 <= i < t.len() && #[trigger] covers(t[i], x)
        }),
    decreases r,
{
    if s.len() > 0 && r > 0 {
        let first = s[0];
        let behind = s.drop_first();
        let rest = vamana::uncovered(behind, first, covers);
        let less = vamana::pruned(rest, (r - 1) as nat, covers);
        let t = vamana::pruned(s, r, covers);
        assert(t =~= seq![first] + less);
        lemma_pruned(rest, (r - 1) as nat, covers, x);
        lemma_uncovered(behind, first, covers, x);
        if behind.contains(x) {
            let i = choose|i: int| 0 <= i < behind.len() && behind[i] == x;
            assert(s[i + 1] == x);
        }
        if s.contains(x) && x != first {
            let i = choose|i: int| 0 <= i < s.len() && s[i] == x;
            assert(behind[i - 1] == x);
        }
        assert(t[0] == first);
        if less.contains(x) {
            let i = choose|i: int| 0 <= i < less.len() && less[i] == x;
            assert(t[i + 1] == x);
        }
        if t.contains(x) && x != first {
            let i = choose|i: int| 0 <= i < t.len() && t[i] == x;
            assert(less[i - 1] == x);
        }
        assert forall|i: int, j: int| 0 <= i < j < t.len() implies !covers(
            #[trigger] t[i],
            #[trigger] t[j],
        ) by {
            assert(t[j] == less[j - 1]);
            if i == 0 {
                assert(less.contains(t[j]));
                lemma_pruned(rest, (r - 1) as nat, covers, t[j]);
                lemma_uncovered(behind, first, covers, t[j]);
            } else {
                assert(t[i] == less[i - 1]);
            }
        }
        if s.contains(x) && !t.contains(x) && t.len() < r {
            if covers(first, x) {
                assert(covers(t[0], x));
            } else {
                assert(rest.contains(x) && !less.contains(x));
                let i = choose|i: int| 0 <= i < less.len() && #[trigger] covers(less[i], x);
                assert(t[i + 1] == less[i]);
                assert(covers(t[i + 1], x));
            }
        }
    }
}

/// The neighbours that a node keeps are known candidates, at most `r`; the nearest is
/// one of them; none that one kept before it covers; and a known candidate is left out
/// only if one that is kept covers it or `r` are kept.
pub proof fn lemma_kept(g: Gauge, p: u64, ids: Seq<u64>, r: nat, x: u64)
    ensures
        ({
            let t = vamana::kept(g, p, ids, r);
            &&& t.len() <= r
            &&& t.contains(x) ==> ids.contains(x) && g.known.contains(x)
            &&& forall|i: int, j: int|
                0 <= i < j < t.len() ==> !(g.covers)(p)(#[trigger] t[i], #[trigger] t[j])
            &&& ids.contains(x) && g.known.contains(x) && r > 0 ==> t.len() > 0 && (g.pair)(p, t[0])
                <= (g.pair)(p, x)
            &&& ids.contains(x) && g.known.contains(x) && !t.contains(x) ==> t.len() == r
                || exists|i: int| 0 <= i < t.len() && #[trigger] (g.covers)(p)(t[i], x)
        }),
{
    broadcast use vstd::seq_lib::group_to_multiset_ensures;

    let k = vamana::known_of(g.known, ids);
    let rank = hnsw::rank_from(g.pair, p);
    let s = hnsw::ranked(k, rank);
    lemma_known_of(g.known, ids, x);
    hnsw_laws::lemma_ranked(k, rank);
    lemma_pruned(s, r, (g.covers)(p), x);
    assert(s.contains(x) <==> k.contains(x)) by {
        assert(s.to_multiset().count(x) == k.to_multiset().count(x));
    }
    if s.contains(x) {
        let q = choose|q: int| 0 <= q < s.len() && s[q] == x;
        if q > 0 {
            assert(rank(s[0]) <= rank(s[q]));
        }
        assert(rank(s[0]) == (g.pair)(p, s[0]));
    }
}

// ----------------------------------------------------------------------
// Edges
// ----------------------------------------------------------------------
/// No node has more than `r` edges; all lead to nodes that are known, and none back to
/// the node itself.
pub open spec fn is_sound(adj: Edges, known: Set<u64>, r: nat) -> bool {
    forall|id: u64|
        #![trigger adj.contains_key(id)]
        adj.contains_key(id) ==> adj[id].len() <= r && forall|x: u64| #[trigger]
            adj[id].contains(x) ==> known.contains(x) && x != id
}

proof fn lemma_back_edge(adj: Edges, g: Gauge, p: u64, q: u64, r: nat)
    requires
        is_sound(adj, g.known, r),
        g.known.contains(p),
        p != q,
    ensures
        is_sound(vamana::back_edge(adj, g, p, q, r), g.known, r),
        vamana::edges_of(vamana::back_edge(adj, g, p, q, r), q).contains(p) || vamana::edges_of(
            adj,
            q,
        ).len() >= r,
        forall|id: u64|
            id != q ==> #[trigger] vamana::edges_of(vamana::back_edge(adj, g, p, q, r), id)
                == vamana::edges_of(adj, id),
        forall|id: u64| #[trigger]
            vamana::back_edge(adj, g, p, q, r).contains_key(id) <==> adj.contains_key(id) || id
                == q,
{
    let have = vamana::edges_of(adj, q);
    let edges = if have.contains(p) {
        have
    } else {
        have.push(p)
    };
    let out = vamana::back_edge(adj, g, p, q, r);
    assert forall|x: u64| #[trigger] edges.contains(x) implies g.known.contains(x) && x != q by {
        lemma_push_has(have, p, x);
        if have.contains(x) {
            assert(adj.contains_key(q));
            assert(adj[q].contains(x));
        }
    }
    lemma_push_has(have, p, p);
    assert forall|x: u64| #[trigger] out[q].contains(x) implies g.known.contains(x) && x != q by {
        lemma_kept(g, q, edges, r, x);
        assert(edges.contains(x));
    }
    lemma_kept(g, q, edges, r, p);
    assert(out[q].len() <= r);
    assert forall|id: u64|
        #![trigger out.contains_key(id)]
        out.contains_key(id) implies out[id].len() <= r && forall|x: u64| #[trigger]
        out[id].contains(x) ==> g.known.contains(x) && x != id by {
        if id != q {
            assert(adj.contains_key(id) && out[id] == adj[id]);
        }
    }
    if edges.len() > r {
        assert(have.len() >= r);
    }
}

proof fn lemma_back_edges(adj: Edges, g: Gauge, p: u64, nbs: Seq<u64>, n: int, r: nat)
    requires
        is_sound(adj, g.known, r),
        g.known.contains(p),
        0 <= n <= nbs.len(),
        forall|i: int| 0 <= i < nbs.len() ==> #[trigger] nbs[i] != p,
    ensures
        is_sound(vamana::back_edges(adj, g, p, nbs, n, r), g.known, r),
        forall|id: u64| #[trigger]
            adj.contains_key(id) ==> vamana::back_edges(adj, g, p, nbs, n, r).contains_key(id),
        forall|id: u64|
            !nbs.take(n).contains(id) ==> #[trigger] vamana::edges_of(
                vamana::back_edges(adj, g, p, nbs, n, r),
                id,
            ) == vamana::edges_of(adj, id),
    decreases n,
{
    if n > 0 {
        lemma_back_edges(adj, g, p, nbs, n - 1, r);
        let a = vamana::back_edges(adj, g, p, nbs, n - 1, r);
        let b = vamana::back_edges(adj, g, p, nbs, n, r);
        lemma_back_edge(a, g, p, nbs[n - 1], r);
        assert forall|id: u64| !nbs.take(n).contains(id) implies #[trigger] vamana::edges_of(b, id)
            == vamana::edges_of(adj, id) by {
            assert(nbs.take(n)[n - 1] == nbs[n - 1]);
            assert(!nbs.take(n - 1).contains(id)) by {
                if nbs.take(n - 1).contains(id) {
                    let less = nbs.take(n - 1);
                    let i = choose|i: int| 0 <= i < less.len() && less[i] == id;
                    assert(nbs.take(n)[i] == id);
                }
            }
            assert(vamana::edges_of(a, id) == vamana::edges_of(adj, id));
        }
    }
}

/// A node that gets an edge back keeps its others where there is room; where there is
/// none it chooses anew among them and the new one: it keeps known ones only, the nearest
/// first, and lets one go only if one that it keeps covers it or it has all that it may.
/// No other node's edges change.
pub proof fn lemma_edge_back(adj: Edges, g: Gauge, p: u64, q: u64, r: nat, y: u64)
    ensures
        ({
            let t = vamana::back_edge(adj, g, p, q, r);
            let have = vamana::edges_of(adj, q);
            let now = vamana::edges_of(t, q);
            let full = have.len() > r || (have.len() == r && !have.contains(p));
            let known = (have.contains(y) || y == p) && g.known.contains(y);
            &&& y != q ==> vamana::edges_of(t, y) == vamana::edges_of(adj, y)
            &&& !full && have.contains(p) ==> now == have
            &&& !full && !have.contains(p) ==> now == have.push(p)
            &&& full ==> now.len() <= r
            &&& full && now.contains(y) ==> known
            &&& full && known && r > 0 ==> now.len() > 0 && (g.pair)(q, now[0]) <= (g.pair)(q, y)
            &&& full && known && !now.contains(y) ==> now.len() == r || exists|i: int|
                0 <= i < now.len() && #[trigger] (g.covers)(q)(now[i], y)
        }),
{
    let have = vamana::edges_of(adj, q);
    let edges = if have.contains(p) {
        have
    } else {
        have.push(p)
    };
    assert(edges.contains(y) <==> have.contains(y) || y == p) by {
        if have.contains(y) {
            let i = choose|i: int| 0 <= i < have.len() && have[i] == y;
            assert(edges[i] == y);
        }
        if !have.contains(p) {
            assert(edges[have.len() as int] == p);
        }
        if edges.contains(y) {
            let i = choose|i: int| 0 <= i < edges.len() && edges[i] == y;
            if i < have.len() {
                assert(have[i] == y);
            }
        }
    }
    lemma_kept(g, q, edges, r, y);
}

proof fn lemma_edges_lead_back(
    adj: Edges,
    g: Gauge,
    p: u64,
    nbs: Seq<u64>,
    n: int,
    r: nat,
    id: u64,
)
    requires
        0 <= n <= nbs.len(),
    ensures
        ({
            let t = vamana::back_edges(adj, g, p, nbs, n, r);
            &&& !nbs.take(n).contains(id) ==> vamana::edges_of(t, id) == vamana::edges_of(adj, id)
            &&& nbs.take(n).contains(id) && vamana::edges_of(adj, id).len() < r ==> (
            vamana::edges_of(t, id).contains(p) && vamana::edges_of(t, id).len() <= r)
        }),
    decreases n,
{
    if n > 0 {
        let a = vamana::back_edges(adj, g, p, nbs, n - 1, r);
        let nb = nbs[n - 1];
        lemma_edges_lead_back(adj, g, p, nbs, n - 1, r, id);
        lemma_edge_back(a, g, p, nb, r, id);
        let less = nbs.take(n - 1);
        let now = nbs.take(n);
        assert(now[n - 1] == nb);
        if less.contains(id) {
            let i = choose|i: int| 0 <= i < less.len() && less[i] == id;
            assert(now[i] == id);
        }
        if now.contains(id) && id != nb {
            let i = choose|i: int| 0 <= i < now.len() && now[i] == id;
            assert(less[i] == id);
        }
        let have = vamana::edges_of(a, nb);
        if id == nb && !have.contains(p) {
            assert(have.push(p)[have.len() as int] == p);
        }
    }
}

/// Going over a node leaves the edges sound: it gets edges to the best of what was found
/// and of what it had, and only its new neighbours get other edges. One that has room
/// for it gets an edge back.
pub proof fn lemma_improved(adj: Edges, g: Gauge, p: u64, found: Seq<u64>, r: nat, id: u64)
    requires
        is_sound(adj, g.known, r),
        g.known.contains(p),
    ensures
        ({
            let t = vamana::improved(adj, g, p, found, r);
            &&& is_sound(t, g.known, r)
            &&& t.contains_key(p)
            &&& adj.contains_key(id) ==> t.contains_key(id)
            &&& t[p].contains(id) ==> found.contains(id) || vamana::edges_of(adj, p).contains(id)
            &&& id != p && !t[p].contains(id) ==> vamana::edges_of(t, id) == vamana::edges_of(
                adj,
                id,
            )
            &&& t[p].contains(id) && vamana::edges_of(adj, id).len() < r ==> vamana::edges_of(
                t,
                id,
            ).contains(p)
            &&& (found.contains(id) || vamana::edges_of(adj, p).contains(id)) && id != p
                && g.known.contains(id) && !t[p].contains(id) ==> t[p].len() == r || exists|i: int|
                0 <= i < t[p].len() && #[trigger] (g.covers)(p)(t[p][i], id)
        }),
{
    let one = vamana::merged(Seq::empty(), found, p);
    let all = vamana::merged(one, vamana::edges_of(adj, p), p);
    let nbs = vamana::kept(g, p, all, r);
    let t = vamana::improved(adj, g, p, found, r);
    let b = vamana::back_edges(adj, g, p, nbs, nbs.len() as int, r);
    lemma_merged(Seq::empty(), found, p, id);
    lemma_merged(one, vamana::edges_of(adj, p), p, id);
    lemma_kept(g, p, all, r, id);
    assert forall|x: u64| #[trigger] nbs.contains(x) implies g.known.contains(x) && x != p by {
        lemma_kept(g, p, all, r, x);
        lemma_merged(Seq::empty(), found, p, x);
        lemma_merged(one, vamana::edges_of(adj, p), p, x);
    }
    assert forall|i: int| 0 <= i < nbs.len() implies #[trigger] nbs[i] != p by {
        assert(nbs.contains(nbs[i]));
    }
    lemma_back_edges(adj, g, p, nbs, nbs.len() as int, r);
    assert(nbs.take(nbs.len() as int) =~= nbs);
    lemma_edges_lead_back(adj, g, p, nbs, nbs.len() as int, r, id);
    assert(t == b.insert(p, nbs));
    assert forall|x: u64|
        #![trigger t.contains_key(x)]
        t.contains_key(x) implies t[x].len() <= r && forall|y: u64| #[trigger]
        t[x].contains(y) ==> g.known.contains(y) && y != x by {
        if x != p {
            assert(b.contains_key(x) && t[x] == b[x]);
        }
    }
    if id != p && !nbs.contains(id) {
        assert(vamana::edges_of(b, id) == vamana::edges_of(adj, id));
        assert(vamana::edges_of(t, id) == vamana::edges_of(b, id));
    }
}

/// A pass over known nodes leaves the edges sound, and loses no node.
pub proof fn lemma_passed(
    adj: Edges,
    g: Gauge,
    start: u64,
    order: Seq<u64>,
    l: nat,
    r: nat,
    id: u64,
)
    requires
        is_sound(adj, g.known, r),
        forall|i: int| 0 <= i < order.len() ==> g.known.contains(#[trigger] order[i]),
    ensures
        is_sound(vamana::passed(adj, g, start, order, l, r), g.known, r),
        adj.contains_key(id) || order.contains(id) ==> vamana::passed(
            adj,
            g,
            start,
            order,
            l,
            r,
        ).contains_key(id),
    decreases order.len(),
{
    if order.len() > 0 {
        let p = order[0];
        let w = walk::found(vamana::field(adj, g.known, hnsw::rank_from(g.pair, p), start), l);
        let rest = order.drop_first();
        lemma_improved(adj, g, p, w, r, id);
        assert forall|i: int| 0 <= i < rest.len() implies g.known.contains(#[trigger] rest[i]) by {
            assert(rest[i] == order[i + 1]);
        }
        lemma_passed(vamana::improved(adj, g, p, w, r), g, start, rest, l, r, id);
        if order.contains(id) && id != p {
            let i = choose|i: int| 0 <= i < order.len() && order[i] == id;
            assert(rest[i - 1] == id);
        }
    }
}

/// Where the search keeps more than one node, going over a node joins it to where the
/// search from the starting node ends: its first neighbour is no farther than that node.
pub proof fn lemma_node_meets_the_nearest(
    adj: Edges,
    g: Gauge,
    start: u64,
    p: u64,
    l: nat,
    r: nat,
)
    requires
        g.known.finite(),
        g.known.contains(start),
        start != p,
        l > 1,
        r > 0,
    ensures
        ({
            let mine = vamana::edges_of(vamana::passed(adj, g, start, seq![p], l, r), p);
            &&& mine.len() > 0
            &&& mine.len() <= r
            &&& (g.pair)(p, mine[0]) <= (g.pair)(p, start)
        }),
{
    let f = vamana::field(adj, g.known, hnsw::rank_from(g.pair, p), start);
    let pace = walk::one_by_one(l);
    let w = walk::found_by(f, pace);
    let order = seq![p];
    reveal_with_fuel(vamana::passed, 2);
    assert(order.drop_first() =~= Seq::empty());
    let t = vamana::improved(adj, g, p, w, r);
    assert(vamana::passed(adj, g, start, order, l, r) == t);
    walk::lemma_found_is_beam(f, pace);
    assert(f.seeds[0] == start);
    assert(walk::beside(w, f, start));
    assert(f.live.contains(start));
    let one = vamana::merged(Seq::empty(), w, p);
    let all = vamana::merged(one, vamana::edges_of(adj, p), p);
    let nbs = vamana::kept(g, p, all, r);
    assert(vamana::edges_of(t, p) == nbs);
    if w.contains(start) {
        lemma_merged(Seq::empty(), w, p, start);
        lemma_merged(one, vamana::edges_of(adj, p), p, start);
        lemma_kept(g, p, all, r, start);
    } else {
        let y = if w[0] != p {
            w[0]
        } else {
            w[1]
        };
        assert(w.contains(y));
        lemma_merged(Seq::empty(), w, p, y);
        lemma_merged(one, vamana::edges_of(adj, p), p, y);
        let i = choose|i: int| 0 <= i < w.len() && w[i] == y;
        assert(f.live.contains(w[i]));
        lemma_kept(g, p, all, r, y);
        if i < w.len() - 1 {
            assert((f.rank)(w[i]) <= (f.rank)(w[w.len() - 1]));
        }
    }
}

/// In a graph that was built every node has at most `r` edges, all of them to other
/// nodes of the graph.
pub proof fn lemma_built_graph(
    ids: Seq<u64>,
    r: nat,
    l: nat,
    start: u64,
    first: Gauge,
    second: Gauge,
    t: Edges,
    id: u64,
)
    requires
        vamana::is_built(ids, r, l, start, first, second, t),
        first.known == ids.to_set(),
        second.known == ids.to_set(),
        ids.contains(id),
    ensures
        t.contains_key(id),
        t[id].len() <= r,
        forall|x: u64| #[trigger] t[id].contains(x) ==> ids.contains(x) && x != id,
{
    broadcast use vstd::seq_lib::group_to_multiset_ensures;

    let (a, o1, o2) = choose|a: Edges, o1: Seq<u64>, o2: Seq<u64>|
        #![trigger vamana::passed(vamana::passed(a, first, start, o1, l, r), second, start, o2, l, r)]
        vamana::is_start(ids, ids.len() as int, r, a) && o1.to_multiset() == ids.to_multiset()
            && o2.to_multiset() == ids.to_multiset() && t == vamana::passed(
            vamana::passed(a, first, start, o1, l, r),
            second,
            start,
            o2,
            l,
            r,
        );
    assert(ids.take(ids.len() as int) =~= ids);
    assert forall|x: u64|
        #![trigger a.contains_key(x)]
        a.contains_key(x) implies a[x].len() <= r && forall|y: u64| #[trigger]
        a[x].contains(y) ==> first.known.contains(y) && y != x by {
        let from = vamana::others(ids, x);
        assert(vamana::drawn(from, r, a[x]));
        let order = choose|order: Seq<u64>|
            #[trigger] order.to_multiset() == from.to_multiset() && a[x] == order.take(
                hnsw::lesser(r as int, order.len() as int),
            );
        assert forall|y: u64| #[trigger] a[x].contains(y) implies first.known.contains(y) && y
            != x by {
            let i = choose|i: int| 0 <= i < a[x].len() && a[x][i] == y;
            assert(order[i] == y);
            assert(order.contains(y));
            assert(from.to_multiset().count(y) > 0);
            lemma_others(ids, x, y);
        }
    }
    assert forall|i: int| 0 <= i < o1.len() implies first.known.contains(#[trigger] o1[i]) by {
        assert(o1.contains(o1[i]));
        assert(ids.to_multiset().count(o1[i]) > 0);
    }
    assert forall|i: int| 0 <= i < o2.len() implies second.known.contains(#[trigger] o2[i]) by {
        assert(o2.contains(o2[i]));
        assert(ids.to_multiset().count(o2[i]) > 0);
    }
    assert(a.contains_key(id));
    lemma_passed(a, first, start, o1, l, r, id);
    let b = vamana::passed(a, first, start, o1, l, r);
    lemma_passed(b, second, start, o2, l, r, id);
    assert forall|x: u64| #[trigger] t[id].contains(x) implies ids.contains(x) && x != id by {
        assert(t.contains_key(id));
    }
}

} // verus!
