//! What holds of a table of routes however it is changed.
use crate::bytes;
use crate::consensus::messages::NodeId;
use crate::sharding::routing;
use crate::sharding::routing::{RouteView, ShardId};
use vstd::prelude::*;

verus! {

/// The routes are in the order of their first keys.
pub open spec fn is_ordered(routes: Seq<RouteView>) -> bool {
    forall|i: int, j: int|
        0 <= i < j < routes.len() ==> !bytes::lex_lt(
            (#[trigger] routes[j]).start,
            (#[trigger] routes[i]).start,
        )
}

/// No shard has two routes.
pub open spec fn one_each(routes: Seq<RouteView>) -> bool {
    forall|i: int, j: int|
        0 <= i < j < routes.len() ==> (#[trigger] routes[i]).shard != (#[trigger] routes[j]).shard
}

/// None of the routes is the shard's.
pub open spec fn lacks(routes: Seq<RouteView>, shard: ShardId) -> bool {
    forall|i: int| 0 <= i < routes.len() ==> (#[trigger] routes[i]).shard != shard
}

proof fn lemma_push_contains(routes: Seq<RouteView>, r: RouteView, x: RouteView)
    ensures
        routes.push(r).contains(x) <==> routes.contains(x) || x == r,
{
    let out = routes.push(r);
    if routes.contains(x) {
        let i = choose|i: int| 0 <= i < routes.len() && routes[i] == x;
        assert(out[i] == x);
    }
    if x == r {
        assert(out[routes.len() as int] == x);
    }
    if out.contains(x) && x != r {
        let i = choose|i: int| 0 <= i < out.len() && out[i] == x;
        assert(routes[i] == x);
    }
}

/// What a removal leaves: all routes but those of the shard, in their order.
proof fn lemma_without(routes: Seq<RouteView>, shard: ShardId)
    ensures
        lacks(routing::without(routes, shard), shard),
        forall|x: RouteView|
            #![trigger routing::without(routes, shard).contains(x)]
            #![trigger routes.contains(x)]
            routing::without(routes, shard).contains(x) <==> routes.contains(x) && x.shard
                != shard,
        one_each(routes) ==> one_each(routing::without(routes, shard)),
        is_ordered(routes) ==> is_ordered(routing::without(routes, shard)),
    decreases routes.len(),
{
    if routes.len() > 0 {
        let front = routes.drop_last();
        let last = routes.last();
        lemma_without(front, shard);
        let kept = routing::without(front, shard);
        let out = routing::without(routes, shard);
        assert(routes =~= front.push(last));
        assert forall|x: RouteView|
            #![trigger out.contains(x)]
            #![trigger routes.contains(x)]
            out.contains(x) <==> routes.contains(x) && x.shard != shard by {
            lemma_push_contains(front, last, x);
            lemma_push_contains(kept, last, x);
            assert(kept.contains(x) <==> front.contains(x) && x.shard != shard);
        }
        if last.shard != shard {
            assert forall|i: int| 0 <= i < out.len() implies (#[trigger] out[i]).shard != shard by {
                if i < kept.len() {
                    assert(out[i] == kept[i]);
                }
            }
        }
        if one_each(routes) {
            assert(one_each(front)) by {
                assert forall|i: int, j: int| 0 <= i < j < front.len() implies (
                #[trigger] front[i]).shard != (#[trigger] front[j]).shard by {
                    assert(front[i] == routes[i] && front[j] == routes[j]);
                }
            }
            assert forall|i: int, j: int| 0 <= i < j < out.len() implies (#[trigger] out[i]).shard
                != (#[trigger] out[j]).shard by {
                assert(out[i] == kept[i]);
                if j < kept.len() {
                    assert(out[j] == kept[j]);
                } else {
                    assert(kept.contains(kept[i]));
                    let k = choose|k: int| 0 <= k < front.len() && front[k] == kept[i];
                    assert(routes[k].shard != routes[routes.len() - 1].shard);
                }
            }
        }
        if is_ordered(routes) {
            assert(is_ordered(front)) by {
                assert forall|i: int, j: int| 0 <= i < j < front.len() implies !bytes::lex_lt(
                    (#[trigger] front[j]).start,
                    (#[trigger] front[i]).start,
                ) by {
                    assert(front[i] == routes[i] && front[j] == routes[j]);
                }
            }
            assert forall|i: int, j: int| 0 <= i < j < out.len() implies !bytes::lex_lt(
                (#[trigger] out[j]).start,
                (#[trigger] out[i]).start,
            ) by {
                assert(out[i] == kept[i]);
                if j < kept.len() {
                    assert(out[j] == kept[j]);
                } else {
                    assert(kept.contains(kept[i]));
                    let k = choose|k: int| 0 <= k < front.len() && front[k] == kept[i];
                    assert(!bytes::lex_lt(routes[routes.len() - 1].start, routes[k].start));
                }
            }
        }
    }
}

/// What a route that is put in its place leaves of the others.
proof fn lemma_inserted(routes: Seq<RouteView>, r: RouteView)
    requires
        is_ordered(routes),
    ensures
        is_ordered(routing::insert_by_start(routes, r)),
        forall|x: RouteView|
            #![trigger routing::insert_by_start(routes, r).contains(x)]
            #![trigger routes.contains(x)]
            routing::insert_by_start(routes, r).contains(x) <==> routes.contains(x) || x == r,
        one_each(routes) && lacks(routes, r.shard) ==> one_each(
            routing::insert_by_start(routes, r),
        ),
    decreases routes.len(),
{
    let out = routing::insert_by_start(routes, r);
    if routes.len() > 0 && bytes::lex_lt(r.start, routes.last().start) {
        let front = routes.drop_last();
        let last = routes.last();
        assert forall|i: int, j: int| 0 <= i < j < front.len() implies !bytes::lex_lt(
            (#[trigger] front[j]).start,
            (#[trigger] front[i]).start,
        ) by {
            assert(front[i] == routes[i] && front[j] == routes[j]);
        }
        lemma_inserted(front, r);
        let kept = routing::insert_by_start(front, r);
        assert(routes =~= front.push(last));
        assert forall|x: RouteView|
            #![trigger out.contains(x)]
            #![trigger routes.contains(x)]
            out.contains(x) <==> routes.contains(x) || x == r by {
            lemma_push_contains(front, last, x);
            lemma_push_contains(kept, last, x);
            assert(kept.contains(x) <==> front.contains(x) || x == r);
        }
        assert forall|i: int, j: int| 0 <= i < j < out.len() implies !bytes::lex_lt(
            (#[trigger] out[j]).start,
            (#[trigger] out[i]).start,
        ) by {
            assert(out[i] == kept[i]);
            if j < kept.len() {
                assert(out[j] == kept[j]);
            } else {
                assert(kept.contains(kept[i]));
                if kept[i] == r {
                    bytes::lemma_lex_asymmetric(r.start, last.start);
                } else {
                    let k = choose|k: int| 0 <= k < front.len() && front[k] == kept[i];
                    assert(!bytes::lex_lt(routes[routes.len() - 1].start, routes[k].start));
                }
            }
        }
        if one_each(routes) && lacks(routes, r.shard) {
            assert forall|i: int, j: int| 0 <= i < j < front.len() implies (#[trigger] front[i]).shard
                != (#[trigger] front[j]).shard by {
                assert(front[i] == routes[i] && front[j] == routes[j]);
            }
            assert forall|i: int| 0 <= i < front.len() implies (#[trigger] front[i]).shard
                != r.shard by {
                assert(front[i] == routes[i]);
            }
            assert forall|i: int, j: int| 0 <= i < j < out.len() implies (#[trigger] out[i]).shard
                != (#[trigger] out[j]).shard by {
                assert(out[i] == kept[i]);
                if j < kept.len() {
                    assert(out[j] == kept[j]);
                } else {
                    assert(kept.contains(kept[i]));
                    assert(routes[routes.len() - 1].shard != r.shard);
                    if kept[i] != r {
                        let k = choose|k: int| 0 <= k < front.len() && front[k] == kept[i];
                        assert(routes[k].shard != routes[routes.len() - 1].shard);
                    }
                }
            }
        }
    } else {
        assert forall|x: RouteView|
            #![trigger out.contains(x)]
            #![trigger routes.contains(x)]
            out.contains(x) <==> routes.contains(x) || x == r by {
            lemma_push_contains(routes, r, x);
        }
        assert forall|i: int, j: int| 0 <= i < j < out.len() implies !bytes::lex_lt(
            (#[trigger] out[j]).start,
            (#[trigger] out[i]).start,
        ) by {
            assert(out[i] == routes[i]);
            if j == routes.len() {
                let n = routes.len() - 1;
                assert(!bytes::lex_lt(r.start, routes[n].start));
                if i < n {
                    assert(!bytes::lex_lt(routes[n].start, routes[i].start));
                    lemma_ge_transitive(routes[i].start, routes[n].start, r.start);
                }
            } else {
                assert(out[j] == routes[j]);
            }
        }
        if one_each(routes) && lacks(routes, r.shard) {
            assert forall|i: int, j: int| 0 <= i < j < out.len() implies (#[trigger] out[i]).shard
                != (#[trigger] out[j]).shard by {
                assert(out[i] == routes[i]);
            }
        }
    }
}

/// "Not before" is transitive.
proof fn lemma_ge_transitive(a: Seq<u8>, b: Seq<u8>, c: Seq<u8>)
    requires
        !bytes::lex_lt(b, a),
        !bytes::lex_lt(c, b),
    ensures
        !bytes::lex_lt(c, a),
{
    bytes::lemma_lex_total(a, b);
    if bytes::lex_lt(c, a) && a != b {
        bytes::lemma_lex_transitive(c, a, b);
    }
}

proof fn lemma_sorted(routes: Seq<RouteView>)
    ensures
        is_ordered(routing::sorted_by_start(routes)),
        forall|x: RouteView|
            #![trigger routing::sorted_by_start(routes).contains(x)]
            #![trigger routes.contains(x)]
            routing::sorted_by_start(routes).contains(x) <==> routes.contains(x),
        one_each(routes) ==> one_each(routing::sorted_by_start(routes)),
    decreases routes.len(),
{
    if routes.len() > 0 {
        let front = routes.drop_last();
        let last = routes.last();
        lemma_sorted(front);
        let kept = routing::sorted_by_start(front);
        lemma_inserted(kept, last);
        assert(routes =~= front.push(last));
        assert forall|x: RouteView|
            #![trigger routing::sorted_by_start(routes).contains(x)]
            #![trigger routes.contains(x)]
            routing::sorted_by_start(routes).contains(x) <==> routes.contains(x) by {
            lemma_push_contains(front, last, x);
            assert(kept.contains(x) <==> front.contains(x));
        }
        if one_each(routes) {
            assert forall|i: int, j: int| 0 <= i < j < front.len() implies (#[trigger] front[i]).shard
                != (#[trigger] front[j]).shard by {
                assert(front[i] == routes[i] && front[j] == routes[j]);
            }
            assert forall|i: int| 0 <= i < kept.len() implies (#[trigger] kept[i]).shard
                != last.shard by {
                assert(kept.contains(kept[i]));
                let k = choose|k: int| 0 <= k < front.len() && front[k] == kept[i];
                assert(routes[k].shard != routes[routes.len() - 1].shard);
            }
        }
    }
}

proof fn lemma_first_of_shard(routes: Seq<RouteView>, shard: ShardId)
    ensures
        0 <= routing::first_of_shard(routes, shard) <= routes.len(),
        routing::first_of_shard(routes, shard) < routes.len()
            ==> routes[routing::first_of_shard(routes, shard)].shard == shard,
        routing::first_of_shard(routes, shard) == routes.len() <==> lacks(routes, shard),
    decreases routes.len(),
{
    if routes.len() > 0 && routes[0].shard != shard {
        let rest = routes.drop_first();
        lemma_first_of_shard(rest, shard);
        if lacks(rest, shard) {
            assert forall|i: int| 0 <= i < routes.len() implies (#[trigger] routes[i]).shard
                != shard by {
                if i > 0 {
                    assert(routes[i] == rest[i - 1]);
                }
            }
        } else {
            let k = choose|k: int| 0 <= k < rest.len() && (#[trigger] rest[k]).shard == shard;
            assert(routes[k + 1].shard == shard);
        }
    }
}

/// A table in which no shard has two routes stays one when a route is set; it is then
/// in order, has the new route, and has the routes of the other shards as they were.
pub proof fn lemma_update_sets_one_route(routes: Seq<RouteView>, r: RouteView, x: RouteView)
    requires
        one_each(routes),
    ensures
        is_ordered(routing::updated(routes, r)),
        one_each(routing::updated(routes, r)),
        routing::updated(routes, r).contains(x) <==> x == r || (routes.contains(x) && x.shard
            != r.shard),
{
    lemma_without(routes, r.shard);
    let left = routing::without(routes, r.shard);
    let all = left.push(r);
    lemma_push_contains(left, r, x);
    assert forall|i: int, j: int| 0 <= i < j < all.len() implies (#[trigger] all[i]).shard != (
    #[trigger] all[j]).shard by {
        assert(all[i] == left[i]);
    }
    lemma_sorted(all);
    assert(routing::sorted_by_start(all).contains(x) <==> all.contains(x));
    assert(left.contains(x) <==> routes.contains(x) && x.shard != r.shard);
}

/// The group of a shard whose route was set is the new one, those of the others are
/// as they were.
pub proof fn lemma_update_sets_group(routes: Seq<RouteView>, r: RouteView, shard: ShardId)
    requires
        one_each(routes),
    ensures
        routing::group_of(routing::updated(routes, r), shard) == if shard == r.shard {
            r.group
        } else {
            routing::group_of(routes, shard)
        },
{
    let out = routing::updated(routes, r);
    lemma_update_sets_one_route(routes, r, r);
    lemma_first_of_shard(out, shard);
    lemma_first_of_shard(routes, shard);
    let i = routing::first_of_shard(out, shard);
    let j = routing::first_of_shard(routes, shard);
    if shard == r.shard {
        let k = choose|k: int| 0 <= k < out.len() && out[k] == r;
        assert(out[k].shard == shard);
        if i != k {
            if i < k {
                assert(out[i].shard != out[k].shard);
            } else {
                assert(out[k].shard != out[i].shard);
            }
        }
    } else if j < routes.len() {
        let x = routes[j];
        assert(routes.contains(x));
        lemma_update_sets_one_route(routes, r, x);
        let k = choose|k: int| 0 <= k < out.len() && out[k] == x;
        assert(out[k].shard == shard);
        if i != k {
            if i < k {
                assert(out[i].shard != out[k].shard);
            } else {
                assert(out[k].shard != out[i].shard);
            }
        }
    } else if i < out.len() {
        let x = out[i];
        assert(out.contains(x));
        lemma_update_sets_one_route(routes, r, x);
        let k = choose|k: int| 0 <= k < routes.len() && routes[k] == x;
        assert(routes[k].shard == shard);
    }
}

/// A shard whose route was dropped has no group; the routes of the others stay, in
/// their order.
pub proof fn lemma_removal_forgets(routes: Seq<RouteView>, shard: ShardId, x: RouteView)
    ensures
        routing::group_of(routing::without(routes, shard), shard) == Seq::<u64>::empty(),
        routing::without(routes, shard).contains(x) <==> routes.contains(x) && x.shard != shard,
        is_ordered(routes) ==> is_ordered(routing::without(routes, shard)),
        one_each(routes) ==> one_each(routing::without(routes, shard)),
{
    lemma_without(routes, shard);
    lemma_first_of_shard(routing::without(routes, shard), shard);
    assert(routing::without(routes, shard).contains(x) <==> routes.contains(x) && x.shard != shard);
}

proof fn lemma_first_cover(routes: Seq<RouteView>, key: Seq<u8>)
    ensures
        0 <= routing::first_cover(routes, key) <= routes.len(),
        routing::first_cover(routes, key) < routes.len() ==> routing::covers(
            routes[routing::first_cover(routes, key)],
            key,
        ),
        routing::first_cover(routes, key) == routes.len() ==> forall|i: int|
            0 <= i < routes.len() ==> !routing::covers(#[trigger] routes[i], key),
    decreases routes.len(),
{
    if routes.len() > 0 && !routing::covers(routes[0], key) {
        let rest = routes.drop_first();
        lemma_first_cover(rest, key);
        if routing::first_cover(rest, key) == rest.len() {
            assert forall|i: int| 0 <= i < routes.len() implies !routing::covers(
                #[trigger] routes[i],
                key,
            ) by {
                if i > 0 {
                    assert(routes[i] == rest[i - 1]);
                }
            }
        }
    }
}

/// A key that just one route covers goes to the shard of that route.
pub proof fn lemma_key_goes_where_covered(routes: Seq<RouteView>, key: Seq<u8>, p: int)
    requires
        0 <= p < routes.len(),
        routing::covers(routes[p], key),
        forall|i: int| 0 <= i < routes.len() && i != p ==> !routing::covers(#[trigger] routes[i], key),
    ensures
        routing::shard_of(routes, key) == routes[p].shard,
{
    lemma_first_cover(routes, key);
}

/// No key is covered by two routes.
pub open spec fn apart(routes: Seq<RouteView>) -> bool {
    forall|i: int, j: int, key: Seq<u8>|
        0 <= i < j < routes.len() && #[trigger] routing::covers(routes[i], key)
            && #[trigger] routing::covers(routes[j], key) ==> false
}

/// The routes after the one at place `p` was split at a key, of which the upper part
/// goes to another shard.
pub open spec fn split_at(
    routes: Seq<RouteView>,
    p: int,
    at: Seq<u8>,
    to: ShardId,
    group: Seq<NodeId>,
) -> Seq<RouteView> {
    let r = routes[p];
    routes.take(p) + seq![
        RouteView { end: at, ..r },
        RouteView { start: at, end: r.end, shard: to, group },
    ] + routes.skip(p + 1)
}

/// The split of a route moves the upper part of its keys, and no other key: the split
/// key is the first that moves.
pub proof fn lemma_split_moves_the_upper_part(
    routes: Seq<RouteView>,
    p: int,
    at: Seq<u8>,
    to: ShardId,
    group: Seq<NodeId>,
    key: Seq<u8>,
)
    requires
        0 <= p < routes.len(),
        apart(routes),
        bytes::lex_lt(routes[p].start, at),
        routes[p].end.len() == 0 || bytes::lex_lt(at, routes[p].end),
    ensures
        routing::shard_of(split_at(routes, p, at, to, group), key) == if routing::covers(
            routes[p],
            key,
        ) && !bytes::lex_lt(key, at) {
            to
        } else {
            routing::shard_of(routes, key)
        },
{
    let after = split_at(routes, p, at, to, group);
    let r = routes[p];
    let lower = RouteView { end: at, ..r };
    let upper = RouteView { start: at, end: r.end, shard: to, group };
    assert(after.len() == routes.len() + 1);
    assert(after[p] == lower && after[p + 1] == upper);
    assert forall|i: int| 0 <= i < p implies after[i] == routes[i] by {}
    assert forall|i: int| p + 1 < i < after.len() implies after[i] == routes[i - 1] by {}
    // The two parts cover what the route did.
    assert(routing::covers(r, key) <==> routing::covers(lower, key) || routing::covers(upper, key))
        by {
        bytes::lemma_lex_total(key, at);
        if bytes::lex_lt(key, at) && r.end.len() > 0 {
            bytes::lemma_lex_transitive(key, at, r.end);
        }
        if bytes::lex_lt(key, r.start) {
            bytes::lemma_lex_transitive(key, r.start, at);
        }
        if at.len() == 0 {
            assert(!bytes::lex_lt(r.start, at));
        }
    }
    assert(!(routing::covers(lower, key) && routing::covers(upper, key))) by {
        assert(at.len() > 0);
    }
    lemma_first_cover(routes, key);
    lemma_first_cover(after, key);
    let q = routing::first_cover(routes, key);
    if q < routes.len() {
        assert forall|i: int| 0 <= i < routes.len() && i != q implies !routing::covers(
            #[trigger] routes[i],
            key,
        ) by {
            if i < q {
                assert(!(routing::covers(routes[i], key) && routing::covers(routes[q], key)));
            } else {
                assert(!(routing::covers(routes[q], key) && routing::covers(routes[i], key)));
            }
        }
        let w = if q < p {
            q
        } else if q > p {
            q + 1
        } else if bytes::lex_lt(key, at) {
            p
        } else {
            p + 1
        };
        assert forall|i: int| 0 <= i < after.len() && i != w implies !routing::covers(
            #[trigger] after[i],
            key,
        ) by {
            if i < p {
                assert(after[i] == routes[i]);
            } else if i > p + 1 {
                assert(after[i] == routes[i - 1]);
            } else if q != p {
                assert(!routing::covers(routes[p], key));
            }
        }
        if q < p {
            assert(after[w] == routes[q]);
        } else if q > p {
            assert(after[w] == routes[q]);
        }
        lemma_key_goes_where_covered(after, key, w);
    } else {
        assert(!routing::covers(routes[p], key));
        let z = routing::first_cover(after, key);
        if z < after.len() {
            if z < p {
                assert(!routing::covers(routes[z], key));
            } else if z > p + 1 {
                assert(!routing::covers(routes[z - 1], key));
            }
        }
    }
}

} // verus!
