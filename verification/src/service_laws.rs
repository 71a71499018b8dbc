//! What servers and clients give, in terms of what was asked and what shards hold.
use crate::bytes;
use crate::consensus::messages::NodeId;
use crate::index::order;
use crate::planner;
use crate::service;
use crate::service::PairView;
use crate::sharding::routing::RouteView;
use vstd::prelude::*;

verus! {

// ----------------------------------------------------------------------
// Ranges of keys
// ----------------------------------------------------------------------
/// The key is not before `start`, and it is before `end`, or there is no end.
pub open spec fn lies_in(key: Seq<u8>, start: Seq<u8>, end: Seq<u8>) -> bool {
    !bytes::lex_lt(key, start) && (end.len() == 0 || bytes::lex_lt(key, end))
}

proof fn lemma_lookups(routes: Seq<RouteView>, start: Seq<u8>, end: Seq<u8>)
    ensures
        service::lookups(routes, start, end) == routes.filter(
            |r: RouteView|
                !(r.end.len() > 0 && bytes::lex_lt(r.end, start)) && !(end.len() > 0
                    && !bytes::lex_lt(r.start, end)),
        ).map_values(|r: RouteView| r.start),
    decreases routes.len(),
{
    reveal(Seq::filter);
    let pick = |r: RouteView|
        !(r.end.len() > 0 && bytes::lex_lt(r.end, start)) && !(end.len() > 0 && !bytes::lex_lt(
            r.start,
            end,
        ));
    let first = |r: RouteView| r.start;
    if routes.len() > 0 {
        let front = routes.drop_last();
        lemma_lookups(front, start, end);
        if pick(routes.last()) {
            assert(front.filter(pick).push(routes.last()).map_values(first) =~= front.filter(
                pick,
            ).map_values(first).push(routes.last().start));
        }
    } else {
        assert(service::lookups(routes, start, end) =~= routes.filter(pick).map_values(first));
    }
}

pub(crate) proof fn lemma_filter_keeps<A>(v: Seq<A>, pick: spec_fn(A) -> bool, i: int) -> (j: int)
    requires
        0 <= i < v.len(),
        pick(v[i]),
    ensures
        0 <= j < v.filter(pick).len(),
        v.filter(pick)[j] == v[i],
    decreases v.len(),
{
    reveal(Seq::filter);
    let front = v.drop_last();
    if i == v.len() - 1 {
        v.filter(pick).len() - 1
    } else {
        assert(front[i] == v[i]);
        lemma_filter_keeps(front, pick, i)
    }
}

pub(crate) proof fn lemma_filter_of<A>(v: Seq<A>, pick: spec_fn(A) -> bool, j: int) -> (i: int)
    requires
        0 <= j < v.filter(pick).len(),
    ensures
        0 <= i < v.len(),
        v[i] == v.filter(pick)[j],
        pick(v[i]),
    decreases v.len(),
{
    reveal(Seq::filter);
    let front = v.drop_last();
    if j < front.filter(pick).len() {
        lemma_filter_of(front, pick, j)
    } else {
        v.len() - 1
    }
}

/// No shard is left out that may hold a key of a range: where a route covers a key that
/// lies in the range, its shard is looked up, by the first key of the route.
pub proof fn lemma_no_shard_of_a_range_is_left_out(
    routes: Seq<RouteView>,
    start: Seq<u8>,
    end: Seq<u8>,
    key: Seq<u8>,
    i: int,
)
    requires
        0 <= i < routes.len(),
        lies_in(key, routes[i].start, routes[i].end),
        lies_in(key, start, end),
    ensures
        service::lookups(routes, start, end).contains(routes[i].start),
{
    let r = routes[i];
    let pick = |r: RouteView|
        !(r.end.len() > 0 && bytes::lex_lt(r.end, start)) && !(end.len() > 0 && !bytes::lex_lt(
            r.start,
            end,
        ));
    lemma_lookups(routes, start, end);
    if r.end.len() > 0 && bytes::lex_lt(r.end, start) {
        bytes::lemma_lex_transitive(key, r.end, start);
    }
    if end.len() > 0 && !bytes::lex_lt(r.start, end) {
        bytes::lemma_lex_total(r.start, key);
        if bytes::lex_lt(r.start, key) {
            bytes::lemma_lex_transitive(r.start, key, end);
        }
    }
    assert(pick(r));
    let j = lemma_filter_keeps(routes, pick, i);
    assert(service::lookups(routes, start, end)[j] == r.start);
}

/// No shard is asked that cannot hold a key of the range: each lookup is the first key
/// of a route that does not end before the range and does not begin behind it, and the
/// shards are looked up in the order of their routes.
pub proof fn lemma_only_shards_of_a_range_are_asked(
    routes: Seq<RouteView>,
    start: Seq<u8>,
    end: Seq<u8>,
    j: int,
) -> (i: int)
    requires
        0 <= j < service::lookups(routes, start, end).len(),
    ensures
        0 <= i < routes.len(),
        routes[i].start == service::lookups(routes, start, end)[j],
        routes[i].end.len() == 0 || !bytes::lex_lt(routes[i].end, start),
        end.len() == 0 || bytes::lex_lt(routes[i].start, end),
        service::lookups(routes, start, end).len() <= routes.len(),
{
    let pick = |r: RouteView|
        !(r.end.len() > 0 && bytes::lex_lt(r.end, start)) && !(end.len() > 0 && !bytes::lex_lt(
            r.start,
            end,
        ));
    lemma_lookups(routes, start, end);
    let i = lemma_filter_of(routes, pick, j);
    routes.lemma_filter_len(pick);
    i
}

// ----------------------------------------------------------------------
// What shards gave, listed
// ----------------------------------------------------------------------
/// The key starts with two underscores.
pub open spec fn has_underscores(key: Seq<u8>) -> bool {
    key.len() >= 2 && key[0] == 95 && key[1] == 95
}

/// A list of what shards gave is in the order of the keys, and holds each pair as
/// often as they gave it, but for the pairs whose keys the database keeps for itself,
/// of which it holds none.
pub proof fn lemma_list_is_whole(v: Seq<PairView>, x: PairView)
    ensures
        service::listed(v).to_multiset().count(x) == if has_underscores(x.0) {
            0
        } else {
            v.to_multiset().count(x)
        },
        forall|i: int, j: int|
            0 <= i < j < service::listed(v).len() ==> !bytes::lex_lt(
                (#[trigger] service::listed(v)[j]).0,
                (#[trigger] service::listed(v)[i]).0,
            ),
    decreases v.len(),
{
    broadcast use vstd::seq_lib::group_to_multiset_ensures;

    if v.len() > 0 {
        let front = v.drop_last();
        let y = v.last();
        lemma_list_is_whole(front, x);
        assert(v =~= front.push(y));
        let p = seq![95u8, 95];
        assert(service::is_inner(y.0) == has_underscores(y.0)) by {
            if p.is_prefix_of(y.0) {
                assert(y.0.subrange(0, 2)[0] == p[0] && y.0.subrange(0, 2)[1] == p[1]);
            }
            if has_underscores(y.0) {
                assert(y.0.subrange(0, 2) =~= p);
            }
        }
        if !service::is_inner(y.0) {
            lemma_put_pair_keeps(service::listed(front), y);
        }
    }
}

proof fn lemma_put_pair_keeps(s: Seq<PairView>, x: PairView)
    requires
        forall|i: int, j: int|
            0 <= i < j < s.len() ==> !bytes::lex_lt((#[trigger] s[j]).0, (#[trigger] s[i]).0),
    ensures
        service::put_pair(s, x).to_multiset() == s.to_multiset().insert(x),
        service::put_pair(s, x).len() == s.len() + 1,
        forall|i: int|
            0 <= i < service::put_pair(s, x).len() ==> (#[trigger] service::put_pair(s, x)[i]) == x
                || s.contains(service::put_pair(s, x)[i]),
        forall|i: int, j: int|
            0 <= i < j < service::put_pair(s, x).len() ==> !bytes::lex_lt(
                (#[trigger] service::put_pair(s, x)[j]).0,
                (#[trigger] service::put_pair(s, x)[i]).0,
            ),
    decreases s.len(),
{
    broadcast use vstd::seq_lib::group_to_multiset_ensures;

    let out = service::put_pair(s, x);
    if s.len() == 0 || !bytes::lex_lt(x.0, s.last().0) {
        assert forall|i: int| 0 <= i < out.len() implies (#[trigger] out[i]) == x || s.contains(
            out[i],
        ) by {
            if i < s.len() {
                assert(s[i] == out[i]);
            }
        }
        assert forall|i: int, j: int| 0 <= i < j < out.len() implies !bytes::lex_lt(
            (#[trigger] out[j]).0,
            (#[trigger] out[i]).0,
        ) by {
            assert(out[i] == s[i]);
            if j < s.len() {
                assert(out[j] == s[j]);
            } else if i < s.len() - 1 {
                assert(!bytes::lex_lt(s[s.len() - 1].0, s[i].0));
                lemma_not_before(s[i].0, s[s.len() - 1].0, x.0);
            }
        }
    } else {
        let front = s.drop_last();
        let last = s[s.len() - 1];
        assert forall|i: int, j: int| 0 <= i < j < front.len() implies !bytes::lex_lt(
            (#[trigger] front[j]).0,
            (#[trigger] front[i]).0,
        ) by {
            assert(front[i] == s[i] && front[j] == s[j]);
        }
        lemma_put_pair_keeps(front, x);
        let inner = service::put_pair(front, x);
        assert(s =~= front.push(last));
        assert(out.to_multiset() =~= s.to_multiset().insert(x));
        assert forall|i: int| 0 <= i < out.len() implies (#[trigger] out[i]) == x || s.contains(
            out[i],
        ) by {
            if i < inner.len() {
                assert(out[i] == inner[i]);
                if inner[i] != x {
                    let k = choose|k: int| 0 <= k < front.len() && front[k] == inner[i];
                    assert(s[k] == out[i]);
                }
            } else {
                assert(s[s.len() - 1] == out[i]);
            }
        }
        assert forall|i: int, j: int| 0 <= i < j < out.len() implies !bytes::lex_lt(
            (#[trigger] out[j]).0,
            (#[trigger] out[i]).0,
        ) by {
            assert(out[i] == inner[i]);
            if j < inner.len() {
                assert(out[j] == inner[j]);
            } else if inner[i] == x {
                bytes::lemma_lex_asymmetric(x.0, last.0);
            } else {
                let k = choose|k: int| 0 <= k < front.len() && front[k] == inner[i];
                assert(!bytes::lex_lt(s[s.len() - 1].0, s[k].0));
            }
        }
    }
}

proof fn lemma_not_before(a: Seq<u8>, b: Seq<u8>, c: Seq<u8>)
    requires
        !bytes::lex_lt(b, a),
        !bytes::lex_lt(c, b),
    ensures
        !bytes::lex_lt(c, a),
{
    if bytes::lex_lt(c, a) {
        bytes::lemma_lex_total(a, b);
        if bytes::lex_lt(a, b) {
            bytes::lemma_lex_transitive(c, a, b);
        }
    }
}

proof fn lemma_put_pair_is_stable(s: Seq<PairView>, x: PairView, k: Seq<u8>)
    ensures
        service::put_pair(s, x).filter(|p: PairView| p.0 == k) == if x.0 == k {
            s.filter(|p: PairView| p.0 == k).push(x)
        } else {
            s.filter(|p: PairView| p.0 == k)
        },
    decreases s.len(),
{
    reveal(Seq::filter);
    if s.len() == 0 || !bytes::lex_lt(x.0, s.last().0) {
        assert(s.push(x).drop_last() =~= s);
    } else {
        let inner = service::put_pair(s.drop_last(), x);
        lemma_put_pair_is_stable(s.drop_last(), x, k);
        bytes::lemma_lex_asymmetric(x.0, s.last().0);
        assert(inner.push(s.last()).drop_last() =~= inner);
    }
}

/// Pairs with one key stand in a list in the order in which shards gave them.
pub proof fn lemma_pairs_of_a_key_keep_their_order(v: Seq<PairView>, k: Seq<u8>)
    requires
        !has_underscores(k),
    ensures
        service::listed(v).filter(|p: PairView| p.0 == k) == v.filter(|p: PairView| p.0 == k),
    decreases v.len(),
{
    reveal(Seq::filter);
    if v.len() > 0 {
        let front = v.drop_last();
        let y = v.last();
        lemma_pairs_of_a_key_keep_their_order(front, k);
        lemma_put_pair_is_stable(service::listed(front), y, k);
        if service::is_inner(y.0) {
            let p = seq![95u8, 95];
            assert(y.0.subrange(0, 2)[0] == p[0] && y.0.subrange(0, 2)[1] == p[1]);
            assert(has_underscores(y.0));
        }
    }
}

// ----------------------------------------------------------------------
// Searches on all shards
// ----------------------------------------------------------------------
/// Every shard is asked, once for each of its routes; a shard that is not here is asked
/// of the node that its group begins with, whoever else is in the group, and of the
/// first node of the cluster where its group is empty.
pub proof fn lemma_every_shard_is_asked(routes: Seq<RouteView>, i: int)
    requires
        0 <= i < routes.len(),
    ensures
        service::targets(routes).len() == routes.len(),
        service::targets(routes)[i].0 == routes[i].shard,
        forall|n: NodeId, rest: Seq<NodeId>|
            routes[i].group == #[trigger] (seq![n] + rest) ==> service::targets(routes)[i].1 == n,
        routes[i].group.len() > 0 ==> routes[i].group.contains(service::targets(routes)[i].1),
        routes[i].group.len() == 0 ==> service::targets(routes)[i].1 == 1,
{
    assert forall|n: NodeId, rest: Seq<NodeId>|
        routes[i].group == #[trigger] (seq![n] + rest) implies service::targets(routes)[i].1
        == n by {
        assert((seq![n] + rest)[0] == n);
    }
}

/// The best of what shards gave are hits that they gave; and a hit is left out only
/// where the same node is there that is no farther, or where as many as were asked for
/// are there that are no farther. The nearest stand first, and a node does not stand
/// beside itself.
pub proof fn lemma_best_are_kept(v: Seq<(u64, u32)>, k: usize, i: int)
    requires
        0 <= i < v.len(),
    ensures
        forall|j: int|
            0 <= j < service::best(v, k).len() ==> v.contains(#[trigger] service::best(v, k)[j]),
        service::best(v, k).len() <= k,
        forall|a: int, b: int|
            0 <= a < b < service::best(v, k).len() ==> (#[trigger] service::best(v, k)[a]).1 <= (
            #[trigger] service::best(v, k)[b]).1,
        forall|a: int|
            0 <= a < service::best(v, k).len() - 1 ==> (#[trigger] service::best(v, k)[a]).0
                != service::best(v, k)[a + 1].0,
        (exists|j: int|
            0 <= j < service::best(v, k).len() && (#[trigger] service::best(v, k)[j]).0 == v[i].0
                && service::best(v, k)[j].1 <= v[i].1) || (service::best(v, k).len() == k
            && forall|j: int|
            0 <= j < service::best(v, k).len() ==> (#[trigger] service::best(v, k)[j]).1
                <= v[i].1),
{
    let sorted = planner::by_rank(v);
    lemma_by_rank(v);
    let w = service::without_repeats(sorted);
    lemma_repeats(sorted);
    let out = service::best(v, k);
    assert forall|j: int| 0 <= j < out.len() implies v.contains(#[trigger] out[j]) by {
        assert(out[j] == w[j]);
        assert(sorted.contains(w[j]));
        let q = choose|q: int| 0 <= q < sorted.len() && sorted[q] == w[j];
        assert(v.contains(sorted[q]));
    }
    assert(sorted.contains(v[i]));
    let q = choose|q: int| 0 <= q < sorted.len() && sorted[q] == v[i];
    let e = lemma_nobody_is_lost(sorted, q);
    if e < out.len() {
        assert(out[e] == w[e]);
    } else {
        assert forall|j: int| 0 <= j < out.len() implies (#[trigger] out[j]).1 <= v[i].1 by {
            assert(out[j] == w[j]);
            assert(w[j].1 <= w[e].1);
        }
    }
}

proof fn lemma_repeats(v: Seq<(u64, u32)>)
    requires
        forall|i: int, j: int| 0 <= i < j < v.len() ==> (#[trigger] v[i]).1 <= (#[trigger] v[j]).1,
    ensures
        forall|j: int|
            0 <= j < service::without_repeats(v).len() ==> v.contains(
                #[trigger] service::without_repeats(v)[j],
            ),
        forall|i: int, j: int|
            0 <= i < j < service::without_repeats(v).len() ==> (
            #[trigger] service::without_repeats(v)[i]).1 <= (
            #[trigger] service::without_repeats(v)[j]).1,
        forall|i: int|
            0 <= i < service::without_repeats(v).len() - 1 ==> (
            #[trigger] service::without_repeats(v)[i]).0 != service::without_repeats(v)[i + 1].0,
    decreases v.len(),
{
    if v.len() > 0 {
        let a = v.drop_last();
        let x = v[v.len() - 1];
        lemma_repeats(a);
        let rest = service::without_repeats(a);
        let w = service::without_repeats(v);
        assert forall|j: int| 0 <= j < rest.len() implies v.contains(#[trigger] rest[j])
            && rest[j].1 <= x.1 by {
            assert(a.contains(rest[j]));
            let k = choose|k: int| 0 <= k < a.len() && a[k] == rest[j];
            assert(v[k] == rest[j]);
        }
        assert forall|j: int| 0 <= j < w.len() implies v.contains(#[trigger] w[j]) by {
            if j < rest.len() {
                assert(w[j] == rest[j]);
            } else {
                assert(v[v.len() - 1] == w[j]);
            }
        }
    }
}

proof fn lemma_nobody_is_lost(v: Seq<(u64, u32)>, q: int) -> (e: int)
    requires
        forall|i: int, j: int| 0 <= i < j < v.len() ==> (#[trigger] v[i]).1 <= (#[trigger] v[j]).1,
        0 <= q < v.len(),
    ensures
        0 <= e < service::without_repeats(v).len(),
        service::without_repeats(v)[e].0 == v[q].0,
        service::without_repeats(v)[e].1 <= v[q].1,
    decreases v.len(),
{
    let a = v.drop_last();
    let rest = service::without_repeats(a);
    if q < a.len() {
        assert(a[q] == v[q]);
        lemma_nobody_is_lost(a, q)
    } else {
        lemma_repeats(a);
        if rest.len() > 0 {
            assert(a.contains(rest[rest.len() - 1]));
            let k = choose|k: int| 0 <= k < a.len() && a[k] == rest[rest.len() - 1];
            assert(v[k] == a[k]);
        }
        service::without_repeats(v).len() - 1
    }
}

/// Hits in the order of their ranks are the same hits, the nearest first.
pub proof fn lemma_by_rank(v: Seq<(u64, u32)>)
    ensures
        planner::by_rank(v).to_multiset() == v.to_multiset(),
        planner::by_rank(v).len() == v.len(),
        forall|i: int| 0 <= i < v.len() ==> planner::by_rank(v).contains(#[trigger] v[i]),
        forall|j: int|
            0 <= j < v.len() ==> v.contains(#[trigger] planner::by_rank(v)[j]),
        forall|i: int, j: int|
            0 <= i < j < v.len() ==> (#[trigger] planner::by_rank(v)[i]).1 <= (
            #[trigger] planner::by_rank(v)[j]).1,
{
    broadcast use vstd::seq_lib::group_to_multiset_ensures;

    let w = planner::wide(v);
    let s = order::in_order(w);
    let r = planner::by_rank(v);
    order::lemma_in_order(w);
    let narrow = |p: (u64, u64)| (p.0, p.1 as u32);
    assert(r =~= s.map_values(narrow));
    assert(v =~= w.map_values(narrow));
    s.to_multiset_ensures();
    w.to_multiset_ensures();
    lemma_map_multiset(s, w, narrow);
    assert forall|i: int| 0 <= i < v.len() implies r.contains(#[trigger] v[i]) by {
        assert(v.contains(v[i]));
        assert(r.to_multiset().count(v[i]) > 0);
    }
    assert forall|j: int| 0 <= j < v.len() implies v.contains(#[trigger] r[j]) by {
        assert(r.contains(r[j]));
        assert(v.to_multiset().count(r[j]) > 0);
    }
    assert forall|i: int| 0 <= i < s.len() implies (#[trigger] s[i]).1 <= u32::MAX by {
        assert(s.contains(s[i]));
        assert(w.to_multiset().count(s[i]) > 0);
        let k = choose|k: int| 0 <= k < w.len() && w[k] == s[i];
    }
    assert forall|i: int, j: int| 0 <= i < j < v.len() implies (#[trigger] r[i]).1 <= (
    #[trigger] r[j]).1 by {
        assert(s[i].1 <= s[j].1);
    }
}

proof fn lemma_map_multiset(
    a: Seq<(u64, u64)>,
    b: Seq<(u64, u64)>,
    f: spec_fn((u64, u64)) -> (u64, u32),
)
    requires
        a.to_multiset() == b.to_multiset(),
    ensures
        a.map_values(f).to_multiset() == b.map_values(f).to_multiset(),
    decreases a.len(),
{
    broadcast use vstd::seq_lib::group_to_multiset_ensures;

    assert(a.len() == a.to_multiset().len());
    assert(b.len() == b.to_multiset().len());
    if a.len() == 0 {
        assert(a.map_values(f) =~= b.map_values(f));
    } else {
        let x = a.last();
        assert(a.contains(x));
        assert(b.to_multiset().count(x) > 0);
        let k = choose|k: int| 0 <= k < b.len() && b[k] == x;
        let c = b.remove(k);
        b.to_multiset_ensures();
        assert(c.to_multiset() =~= b.to_multiset().remove(x));
        assert(a =~= a.drop_last().push(x));
        assert(a.drop_last().to_multiset() =~= a.to_multiset().remove(x));
        lemma_map_multiset(a.drop_last(), c, f);
        assert(a.map_values(f) =~= a.drop_last().map_values(f).push(f(x)));
        assert(c.map_values(f) =~= b.map_values(f).remove(k));
        b.map_values(f).to_multiset_ensures();
        assert(b.map_values(f)[k] == f(x));
        assert(c.map_values(f).to_multiset() =~= b.map_values(f).to_multiset().remove(f(x)));
        assert(b.map_values(f).contains(f(x)));
        assert(b.map_values(f).to_multiset() =~= c.map_values(f).to_multiset().insert(f(x)));
    }
}

} // verus!
