//! How routing tables and collections of keys and values are written as bytes.
use crate::bytes;
use crate::codec;
use crate::sharding::commands::{MetaCommand, MetaView};
use crate::sharding::routing;
use crate::sharding::routing::{RangeRoute, RouteView, RoutingTable, ShardId};
use crate::storage::scan;
use vstd::prelude::*;

verus! {

// ----------------------------------------------------------------------
// Routes
// ----------------------------------------------------------------------
/// The bytes of a route.
pub open spec fn enc_route(r: RouteView) -> Seq<u8> {
    codec::enc_bytes(r.start) + codec::enc_bytes(r.end) + codec::enc_u32(r.shard.0)
        + codec::enc_u64s(r.group)
}

/// A route, and what follows it.
pub open spec fn dec_route(b: Seq<u8>) -> Option<(RouteView, Seq<u8>)> {
    match codec::dec_bytes(b) {
        Some((start, b1)) => match codec::dec_bytes(b1) {
            Some((end, b2)) => match codec::dec_u32(b2) {
                Some((id, b3)) => match codec::dec_u64s(b3) {
                    Some((group, b4)) => Some(
                        (RouteView { start, end, shard: ShardId(id), group }, b4),
                    ),
                    None => None,
                },
                None => None,
            },
            None => None,
        },
        None => None,
    }
}

/// The bytes of routes, one after the other.
pub open spec fn enc_route_items(rs: Seq<RouteView>) -> Seq<u8>
    decreases rs.len(),
{
    if rs.len() == 0 {
        Seq::empty()
    } else {
        enc_route_items(rs.drop_last()) + enc_route(rs.last())
    }
}

/// The first `n` routes, and what follows them.
pub open spec fn dec_route_items(b: Seq<u8>, n: nat) -> Option<(Seq<RouteView>, Seq<u8>)>
    decreases n,
{
    if n == 0 {
        Some((Seq::empty(), b))
    } else {
        match dec_route_items(b, (n - 1) as nat) {
            Some((front, rest)) => match dec_route(rest) {
                Some((r, after)) => Some((front.push(r), after)),
                None => None,
            },
            None => None,
        }
    }
}

/// The bytes of a routing table.
pub open spec fn enc_table(rs: Seq<RouteView>) -> Seq<u8> {
    codec::enc_u64(rs.len() as u64) + enc_route_items(rs)
}

/// The routing table that bytes hold, if they hold one.
pub open spec fn dec_table(b: Seq<u8>) -> Option<Seq<RouteView>> {
    match codec::dec_u64(b) {
        Some((n, rest)) => match dec_route_items(rest, n as nat) {
            Some((rs, _)) => Some(rs),
            None => None,
        },
        None => None,
    }
}

/// The bytes of a command of the routing table.
pub open spec fn enc_meta(c: MetaView) -> Seq<u8> {
    match c {
        MetaView::UpdateRoute(r) => codec::enc_u32(0) + enc_route(r),
        MetaView::RemoveRoute(s) => codec::enc_u32(1) + codec::enc_u32(s.0),
    }
}

/// The command of the routing table that bytes hold, if they hold one.
pub open spec fn dec_meta(b: Seq<u8>) -> Option<MetaView> {
    match codec::dec_u32(b) {
        Some((0u32, rest)) => match dec_route(rest) {
            Some((r, _)) => Some(MetaView::UpdateRoute(r)),
            None => None,
        },
        Some((1u32, rest)) => match codec::dec_u32(rest) {
            Some((id, _)) => Some(MetaView::RemoveRoute(ShardId(id))),
            None => None,
        },
        _ => None,
    }
}

fn put_route(out: &mut Vec<u8>, r: &RangeRoute)
    ensures
        final(out)@ == old(out)@ + enc_route(r@),
{
    codec::put_bytes(out, r.start_key.as_slice());
    codec::put_bytes(out, r.end_key.as_slice());
    codec::put_u32(out, r.shard_id.0);
    codec::put_u64s(out, r.raft_group.as_slice());
    assert(out@ =~= old(out)@ + enc_route(r@));
}

/// Reads a route at `at`, with the place where it ends.
fn get_route(b: &[u8], at: usize) -> (r: Option<(RangeRoute, usize)>)
    requires
        at <= b@.len(),
    ensures
        dec_route(b@.skip(at as int)) == (match r {
            Some((x, end)) => Some((x@, b@.skip(end as int))),
            None => None,
        }),
        r matches Some((_, end)) ==> end <= b@.len(),
{
    let start_key = match codec::get_bytes(b, at) {
        Some(k) => k,
        None => return None,
    };
    let at1: usize = at + 8 + start_key.len();
    let end_key = match codec::get_bytes(b, at1) {
        Some(k) => k,
        None => return None,
    };
    let at2: usize = at1 + 8 + end_key.len();
    let id: u32 = match codec::get_u32(b, at2) {
        Some(x) => x,
        None => return None,
    };
    match codec::get_u64s(b, at2 + 4) {
        Some((raft_group, end)) => {
            Some((RangeRoute { start_key, end_key, shard_id: ShardId(id), raft_group }, end))
        },
        None => None,
    }
}

/// The bytes of a routing table.
pub fn encode_table(t: &RoutingTable) -> (r: Vec<u8>)
    ensures
        r@ == enc_table(t@),
{
    let ghost all = t@;
    let mut out: Vec<u8> = Vec::new();
    codec::put_u64(&mut out, t.routes.len() as u64);
    let ghost head = out@;
    let mut i: usize = 0;
    proof {
        assert(all.take(0) =~= Seq::empty());
        assert(head + Seq::<u8>::empty() =~= head);
    }
    while i < t.routes.len()
        invariant
            i <= t.routes@.len(),
            all == t@,
            out@ == head + enc_route_items(all.take(i as int)),
        decreases t.routes@.len() - i,
    {
        proof {
            assert(all.take(i + 1).drop_last() =~= all.take(i as int));
            assert(all.take(i + 1).last() == t.routes@[i as int]@);
        }
        let ghost before = out@;
        put_route(&mut out, &t.routes[i]);
        assert(out@ =~= head + enc_route_items(all.take(i + 1)));
        i = i + 1;
    }
    assert(all.take(i as int) =~= all);
    assert(out@ =~= enc_table(all));
    out
}

proof fn lemma_dec_route_items_none(b: Seq<u8>, i: nat, n: nat)
    requires
        i <= n,
        dec_route_items(b, i) is None,
    ensures
        dec_route_items(b, n) is None,
    decreases n - i,
{
    if i < n {
        lemma_dec_route_items_none(b, i, (n - 1) as nat);
    }
}

pub open spec fn table_view(t: Option<RoutingTable>) -> Option<Seq<RouteView>> {
    match t {
        Some(t) => Some(t@),
        None => None,
    }
}

/// The routing table that bytes hold, if they hold one.
pub fn decode_table(b: &[u8]) -> (r: Option<RoutingTable>)
    ensures
        table_view(r) == dec_table(b@),
{
    assert(b@.skip(0) =~= b@);
    let n: u64 = match codec::get_u64(b, 0) {
        Some(n) => n,
        None => return None,
    };
    let ghost body = b@.skip(8);
    let mut routes: Vec<RangeRoute> = Vec::new();
    let mut at: usize = 8;
    let mut i: u64 = 0;
    assert(routing::route_views(routes@) =~= Seq::empty());
    while i < n
        invariant
            i <= n,
            at <= b@.len(),
            body == b@.skip(8),
            dec_route_items(body, i as nat) == Some(
                (routing::route_views(routes@), b@.skip(at as int)),
            ),
            dec_table(b@) == (match dec_route_items(body, n as nat) {
                Some((rs, _)) => Some(rs),
                None => None,
            }),
        decreases n - i,
    {
        let (route, end) = match get_route(b, at) {
            Some(x) => x,
            None => {
                proof {
                    assert(dec_route_items(body, (i + 1) as nat) is None);
                    lemma_dec_route_items_none(body, (i + 1) as nat, n as nat);
                }
                return None;
            },
        };
        let ghost before = routing::route_views(routes@);
        let ghost view = route@;
        routes.push(route);
        assert(routing::route_views(routes@) =~= before.push(view));
        at = end;
        i = i + 1;
    }
    let t = RoutingTable { routes };
    assert(t@ == routing::route_views(t.routes@));
    Some(t)
}

/// The bytes of a command of the routing table.
pub fn encode_meta(c: &MetaCommand) -> (r: Vec<u8>)
    ensures
        r@ == enc_meta(c@),
{
    let mut out: Vec<u8> = Vec::new();
    match c {
        MetaCommand::UpdateRoute(r) => {
            codec::put_u32(&mut out, 0);
            put_route(&mut out, r);
        },
        MetaCommand::RemoveRoute(s) => {
            codec::put_u32(&mut out, 1);
            codec::put_u32(&mut out, s.0);
        },
    }
    assert(out@ =~= enc_meta(c@));
    out
}

pub open spec fn meta_view(c: Option<MetaCommand>) -> Option<MetaView> {
    match c {
        Some(c) => Some(c@),
        None => None,
    }
}

/// The command of the routing table that bytes hold, if they hold one.
pub fn decode_meta(b: &[u8]) -> (r: Option<MetaCommand>)
    ensures
        meta_view(r) == dec_meta(b@),
{
    assert(b@.skip(0) =~= b@);
    let tag: u32 = match codec::get_u32(b, 0) {
        Some(t) => t,
        None => return None,
    };
    if tag == 0 {
        match get_route(b, 4) {
            Some((r, _)) => Some(MetaCommand::UpdateRoute(r)),
            None => None,
        }
    } else if tag == 1 {
        match codec::get_u32(b, 4) {
            Some(id) => Some(MetaCommand::RemoveRoute(ShardId(id))),
            None => None,
        }
    } else {
        None
    }
}

/// The byte strings and lists of a route are not longer than their length
/// fields can say.
pub open spec fn route_fits(r: RouteView) -> bool {
    r.start.len() <= u64::MAX && r.end.len() <= u64::MAX && r.group.len() <= u64::MAX
}

proof fn lemma_route_round_trip(r: RouteView, rest: Seq<u8>)
    requires
        route_fits(r),
    ensures
        dec_route(enc_route(r) + rest) == Some((r, rest)),
{
    let t2 = codec::enc_u64s(r.group) + rest;
    let t1 = codec::enc_u32(r.shard.0) + t2;
    let t0 = codec::enc_bytes(r.end) + t1;
    assert(enc_route(r) + rest =~= codec::enc_bytes(r.start) + t0);
    codec::lemma_bytes_round_trip(r.start, t0);
    codec::lemma_bytes_round_trip(r.end, t1);
    codec::lemma_u32_round_trip(r.shard.0, t2);
    codec::lemma_u64s_round_trip(r.group, rest);
}

proof fn lemma_route_items_round_trip(rs: Seq<RouteView>, rest: Seq<u8>)
    requires
        forall|i: int| 0 <= i < rs.len() ==> route_fits(#[trigger] rs[i]),
    ensures
        dec_route_items(enc_route_items(rs) + rest, rs.len()) == Some((rs, rest)),
    decreases rs.len(),
{
    if rs.len() == 0 {
        assert(enc_route_items(rs) + rest =~= rest);
        assert(rs =~= Seq::empty());
    } else {
        let x = rs[rs.len() - 1];
        let front = rs.drop_last();
        assert forall|i: int| 0 <= i < front.len() implies route_fits(#[trigger] front[i]) by {
            assert(front[i] == rs[i]);
        }
        lemma_route_items_round_trip(front, enc_route(x) + rest);
        assert(enc_route_items(rs) + rest =~= enc_route_items(front) + (enc_route(x) + rest));
        lemma_route_round_trip(x, rest);
        assert(front.push(x) =~= rs);
    }
}

/// A routing table that was written is read back.
pub proof fn lemma_table_round_trip(rs: Seq<RouteView>)
    requires
        rs.len() <= u64::MAX,
        forall|i: int| 0 <= i < rs.len() ==> route_fits(#[trigger] rs[i]),
    ensures
        dec_table(enc_table(rs)) == Some(rs),
{
    let e = Seq::<u8>::empty();
    codec::lemma_u64_round_trip(rs.len() as u64, enc_route_items(rs));
    lemma_route_items_round_trip(rs, e);
    assert(enc_route_items(rs) + e =~= enc_route_items(rs));
}

/// A command of the routing table that was written is read back.
pub proof fn lemma_meta_round_trip(c: MetaView)
    requires
        c matches MetaView::UpdateRoute(r) ==> route_fits(r),
    ensures
        dec_meta(enc_meta(c)) == Some(c),
{
    let e = Seq::<u8>::empty();
    match c {
        MetaView::UpdateRoute(r) => {
            codec::lemma_u32_round_trip(0, enc_route(r));
            lemma_route_round_trip(r, e);
            assert(enc_route(r) + e =~= enc_route(r));
        },
        MetaView::RemoveRoute(s) => {
            codec::lemma_u32_round_trip(1, codec::enc_u32(s.0));
            codec::lemma_u32_round_trip(s.0, e);
            assert(codec::enc_u32(s.0) + e =~= codec::enc_u32(s.0));
        },
    }
}

// ----------------------------------------------------------------------
// Keys and values
// ----------------------------------------------------------------------
/// The bytes of keys and values, one after the other.
pub open spec fn enc_pair_items(ps: Seq<(Seq<u8>, Seq<u8>)>) -> Seq<u8>
    decreases ps.len(),
{
    if ps.len() == 0 {
        Seq::empty()
    } else {
        enc_pair_items(ps.drop_last()) + codec::enc_bytes(ps.last().0) + codec::enc_bytes(
            ps.last().1,
        )
    }
}

/// A key and a value, and what follows them.
pub open spec fn dec_pair(b: Seq<u8>) -> Option<((Seq<u8>, Seq<u8>), Seq<u8>)> {
    match codec::dec_bytes(b) {
        Some((k, b1)) => match codec::dec_bytes(b1) {
            Some((v, b2)) => Some(((k, v), b2)),
            None => None,
        },
        None => None,
    }
}

/// The first `n` keys and values, and what follows them.
pub open spec fn dec_pair_items(b: Seq<u8>, n: nat) -> Option<
    (Seq<(Seq<u8>, Seq<u8>)>, Seq<u8>),
>
    decreases n,
{
    if n == 0 {
        Some((Seq::empty(), b))
    } else {
        match dec_pair_items(b, (n - 1) as nat) {
            Some((front, rest)) => match dec_pair(rest) {
                Some((p, after)) => Some((front.push(p), after)),
                None => None,
            },
            None => None,
        }
    }
}

/// The bytes of a collection of keys and values.
pub open spec fn enc_pairs(ps: Seq<(Seq<u8>, Seq<u8>)>) -> Seq<u8> {
    codec::enc_u64(ps.len() as u64) + enc_pair_items(ps)
}

/// The keys and values that bytes hold, if they hold such a collection.
pub open spec fn dec_pairs(b: Seq<u8>) -> Option<Seq<(Seq<u8>, Seq<u8>)>> {
    match codec::dec_u64(b) {
        Some((n, rest)) => match dec_pair_items(rest, n as nat) {
            Some((ps, _)) => Some(ps),
            None => None,
        },
        None => None,
    }
}

/// The bytes of a collection of keys and values.
pub fn encode_pairs(ps: &[(Vec<u8>, Vec<u8>)]) -> (r: Vec<u8>)
    ensures
        r@ == enc_pairs(scan::pair_views(ps@)),
{
    let ghost all = scan::pair_views(ps@);
    let mut out: Vec<u8> = Vec::new();
    codec::put_u64(&mut out, ps.len() as u64);
    let ghost head = out@;
    let mut i: usize = 0;
    proof {
        assert(all.take(0) =~= Seq::empty());
        assert(head + Seq::<u8>::empty() =~= head);
    }
    while i < ps.len()
        invariant
            i <= ps@.len(),
            all == scan::pair_views(ps@),
            out@ == head + enc_pair_items(all.take(i as int)),
        decreases ps@.len() - i,
    {
        proof {
            assert(all.take(i + 1).drop_last() =~= all.take(i as int));
            assert(all.take(i + 1).last() == (ps@[i as int].0@, ps@[i as int].1@));
        }
        codec::put_bytes(&mut out, ps[i].0.as_slice());
        codec::put_bytes(&mut out, ps[i].1.as_slice());
        assert(out@ =~= head + enc_pair_items(all.take(i + 1)));
        i = i + 1;
    }
    assert(all.take(i as int) =~= all);
    assert(out@ =~= enc_pairs(all));
    out
}

proof fn lemma_dec_pair_items_none(b: Seq<u8>, i: nat, n: nat)
    requires
        i <= n,
        dec_pair_items(b, i) is None,
    ensures
        dec_pair_items(b, n) is None,
    decreases n - i,
{
    if i < n {
        lemma_dec_pair_items_none(b, i, (n - 1) as nat);
    }
}

pub open spec fn pairs_view(ps: Option<Vec<(Vec<u8>, Vec<u8>)>>) -> Option<
    Seq<(Seq<u8>, Seq<u8>)>,
> {
    match ps {
        Some(ps) => Some(scan::pair_views(ps@)),
        None => None,
    }
}

/// The keys and values that bytes hold, if they hold such a collection.
pub fn decode_pairs(b: &[u8]) -> (r: Option<Vec<(Vec<u8>, Vec<u8>)>>)
    ensures
        pairs_view(r) == dec_pairs(b@),
{
    assert(b@.skip(0) =~= b@);
    let n: u64 = match codec::get_u64(b, 0) {
        Some(n) => n,
        None => return None,
    };
    let ghost body = b@.skip(8);
    let mut ps: Vec<(Vec<u8>, Vec<u8>)> = Vec::new();
    let mut at: usize = 8;
    let mut i: u64 = 0;
    assert(scan::pair_views(ps@) =~= Seq::empty());
    while i < n
        invariant
            i <= n,
            at <= b@.len(),
            body == b@.skip(8),
            dec_pair_items(body, i as nat) == Some((scan::pair_views(ps@), b@.skip(at as int))),
            dec_pairs(b@) == (match dec_pair_items(body, n as nat) {
                Some((rs, _)) => Some(rs),
                None => None,
            }),
        decreases n - i,
    {
        let ghost next = (i + 1) as nat;
        let key = match codec::get_bytes(b, at) {
            Some(x) => x,
            None => {
                proof {
                    assert(dec_pair_items(body, next) is None);
                    lemma_dec_pair_items_none(body, next, n as nat);
                }
                return None;
            },
        };
        let at1: usize = at + 8 + key.len();
        let value = match codec::get_bytes(b, at1) {
            Some(x) => x,
            None => {
                proof {
                    assert(dec_pair_items(body, next) is None);
                    lemma_dec_pair_items_none(body, next, n as nat);
                }
                return None;
            },
        };
        let at2: usize = at1 + 8 + value.len();
        let ghost before = scan::pair_views(ps@);
        let ghost pair = (key@, value@);
        ps.push((key, value));
        assert(scan::pair_views(ps@) =~= before.push(pair));
        at = at2;
        i = i + 1;
    }
    Some(ps)
}

proof fn lemma_pair_items_round_trip(ps: Seq<(Seq<u8>, Seq<u8>)>, rest: Seq<u8>)
    requires
        forall|i: int|
            0 <= i < ps.len() ==> (#[trigger] ps[i]).0.len() <= u64::MAX && ps[i].1.len()
                <= u64::MAX,
    ensures
        dec_pair_items(enc_pair_items(ps) + rest, ps.len()) == Some((ps, rest)),
    decreases ps.len(),
{
    if ps.len() == 0 {
        assert(enc_pair_items(ps) + rest =~= rest);
        assert(ps =~= Seq::empty());
    } else {
        let x = ps[ps.len() - 1];
        let front = ps.drop_last();
        assert forall|i: int| 0 <= i < front.len() implies (#[trigger] front[i]).0.len()
            <= u64::MAX && front[i].1.len() <= u64::MAX by {
            assert(front[i] == ps[i]);
        }
        let t1 = codec::enc_bytes(x.1) + rest;
        let t0 = codec::enc_bytes(x.0) + t1;
        lemma_pair_items_round_trip(front, t0);
        assert(enc_pair_items(ps) + rest =~= enc_pair_items(front) + t0);
        codec::lemma_bytes_round_trip(x.0, t1);
        codec::lemma_bytes_round_trip(x.1, rest);
        assert(front.push(x) =~= ps);
    }
}

/// Keys and values that were written are read back.
pub proof fn lemma_pairs_round_trip(ps: Seq<(Seq<u8>, Seq<u8>)>)
    requires
        ps.len() <= u64::MAX,
        forall|i: int|
            0 <= i < ps.len() ==> (#[trigger] ps[i]).0.len() <= u64::MAX && ps[i].1.len()
                <= u64::MAX,
    ensures
        dec_pairs(enc_pairs(ps)) == Some(ps),
{
    let e = Seq::<u8>::empty();
    codec::lemma_u64_round_trip(ps.len() as u64, enc_pair_items(ps));
    lemma_pair_items_round_trip(ps, e);
    assert(enc_pair_items(ps) + e =~= enc_pair_items(ps));
}

} // verus!
