//! What commands do to a shard, in terms of what is read before and behind them.
use crate::bytes;
use crate::sharding::commands;
use crate::sharding::commands::{CommandView, ConflictView, MetaView};
use crate::sharding::machine;
use crate::sharding::records;
use crate::sharding::routing;
use crate::sharding::routing::{RouteView, ShardId};
use crate::sharding::routing_laws;
use crate::storage::key;
use crate::storage::lsm_laws;
use crate::storage::lsm_model::LsmView;
use crate::storage::timestamp::HlcTimestamp;
use crate::txn::locking;
use vstd::prelude::*;

verus! {

/// The first time is the second or earlier.
pub open spec fn not_later(a: HlcTimestamp, b: HlcTimestamp) -> bool {
    a.physical < b.physical || (a.physical == b.physical && a.logical <= b.logical)
}

// ----------------------------------------------------------------------
// Writes
// ----------------------------------------------------------------------
/// A value that is put is read at and after its time; every other read gives what it
/// gave. The put answers with the value.
pub proof fn lemma_put_is_read<F: Fn(usize) -> (usize, usize)>(
    f: F,
    s: LsmView,
    key: Seq<u8>,
    value: Seq<u8>,
    ts: HlcTimestamp,
    t: LsmView,
    k: Seq<u8>,
    as_of: HlcTimestamp,
)
    requires
        locking::applies(f, s, (CommandView::Put { key, value, ts }), t),
        key::sorted(s.active),
        s.levels.len() > 0,
        lsm_laws::none_later(s, key, ts),
        locking::is_told_apart(s, (CommandView::Put { key, value, ts }), k, as_of),
    ensures
        t.get(k, as_of) == if k == key && not_later(ts, as_of) {
            Some(value)
        } else {
            s.get(k, as_of)
        },
        machine::reply_of(CommandView::Put { key, value, ts }) == value,
{
    let rs = machine::writes_of(s, CommandView::Put { key, value, ts });
    assert(rs.len() == 1 && rs[0].key == key);
    lsm_laws::lemma_after_writes_are_read(f, s, rs, t, k, as_of);
    if k == key && not_later(ts, as_of) {
        assert(lsm_laws::reaches(rs[0], k, as_of));
    } else {
        assert forall|i: int| 0 <= i < rs.len() implies !lsm_laws::reaches(
            #[trigger] rs[i],
            k,
            as_of,
        ) by {}
    }
}

/// A key that is deleted is not found at and after that time; every other read gives
/// what it gave.
pub proof fn lemma_delete_is_read<F: Fn(usize) -> (usize, usize)>(
    f: F,
    s: LsmView,
    key: Seq<u8>,
    ts: HlcTimestamp,
    t: LsmView,
    k: Seq<u8>,
    as_of: HlcTimestamp,
)
    requires
        locking::applies(f, s, (CommandView::Delete { key, ts }), t),
        key::sorted(s.active),
        s.levels.len() > 0,
        lsm_laws::none_later(s, key, ts),
        locking::is_told_apart(s, (CommandView::Delete { key, ts }), k, as_of),
    ensures
        t.get(k, as_of) == if k == key && not_later(ts, as_of) {
            None
        } else {
            s.get(k, as_of)
        },
        machine::reply_of(CommandView::Delete { key, ts }).len() == 0,
{
    let rs = machine::writes_of(s, CommandView::Delete { key, ts });
    assert(rs.len() == 1 && rs[0].key == key);
    lsm_laws::lemma_after_writes_are_read(f, s, rs, t, k, as_of);
    if k == key && not_later(ts, as_of) {
        assert(lsm_laws::reaches(rs[0], k, as_of));
    } else {
        assert forall|i: int| 0 <= i < rs.len() implies !lsm_laws::reaches(
            #[trigger] rs[i],
            k,
            as_of,
        ) by {}
    }
}

// ----------------------------------------------------------------------
// Conflicts
// ----------------------------------------------------------------------
/// A transaction can lock a key if and only if nobody holds its lock and the last
/// commit of the key is from before the transaction started. The refusal names the
/// commit, or else the lock.
pub proof fn lemma_when_a_key_can_be_locked(s: LsmView, key: Seq<u8>, start: HlcTimestamp)
    ensures
        ({
            let c = machine::conflict(s, key, start);
            let last = machine::last_commit(s, key);
            let late = last is Some && not_later(start, (last->0).1);
            let lock = machine::held_lock(s, key);
            &&& c is None <==> !late && lock is None
            &&& late ==> c == Some(ConflictView::WriteConflict((last->0).1))
            &&& !late && lock is Some ==> c == Some(
                ConflictView::LockConflict { primary: lock->0.primary, ts: lock->0.ts },
            )
        }),
{
}

/// What stands in the way of a first phase can be read behind it, where the coordinator
/// looks for it; nothing else has changed.
pub proof fn lemma_refusal_is_read<F: Fn(usize) -> (usize, usize)>(
    f: F,
    s: LsmView,
    key: Seq<u8>,
    value: Option<Seq<u8>>,
    primary: Seq<u8>,
    start: HlcTimestamp,
    ttl: u64,
    t: LsmView,
    k: Seq<u8>,
    as_of: HlcTimestamp,
)
    requires
        locking::applies(f, s, locking::prewrite(key, value, primary, start, ttl), t),
        machine::conflict(s, key, start) is Some,
        machine::held_lock(s, key) matches Some(l) ==> l.primary.len() <= u64::MAX,
        key::sorted(s.active),
        s.levels.len() > 0,
        lsm_laws::none_later(s, commands::tagged_at(commands::ERROR_TAG, key, start), start),
        locking::is_told_apart(
            s,
            locking::prewrite(key, value, primary, start, ttl),
            commands::tagged_at(commands::ERROR_TAG, key, start),
            machine::max_ts(),
        ),
        locking::is_told_apart(s, locking::prewrite(key, value, primary, start, ttl), k, as_of),
    ensures
        ({
            let b = t.get(commands::tagged_at(commands::ERROR_TAG, key, start), machine::max_ts());
            b is Some && records::dec_conflict(b->0) == machine::conflict(s, key, start)
        }),
        k != commands::tagged_at(commands::ERROR_TAG, key, start) ==> t.get(k, as_of) == s.get(
            k,
            as_of,
        ),
{
    let ek = commands::tagged_at(commands::ERROR_TAG, key, start);
    let rs = machine::writes_of(s, locking::prewrite(key, value, primary, start, ttl));
    let c = machine::conflict(s, key, start)->0;
    assert(rs.len() == 1 && rs[0].key == ek);
    records::lemma_conflict_round_trip(c);
    lsm_laws::lemma_after_writes_are_read(f, s, rs, t, ek, machine::max_ts());
    lsm_laws::lemma_after_writes_are_read(f, s, rs, t, k, as_of);
    assert(lsm_laws::reaches(rs[0], ek, machine::max_ts()));
    if k != ek {
        assert(!lsm_laws::reaches(rs[0], k, as_of));
    }
}

// ----------------------------------------------------------------------
// The table of routes
// ----------------------------------------------------------------------
/// A command on the table of routes sets the route of a shard, or drops it; the routes
/// of other shards stay.
pub proof fn lemma_table_commands(
    routes: Seq<RouteView>,
    r: RouteView,
    shard: ShardId,
    x: RouteView,
)
    requires
        routing_laws::one_each(routes),
    ensures
        machine::table_after(routes, MetaView::UpdateRoute(r)).contains(x) <==> x == r || (
        routes.contains(x) && x.shard != r.shard),
        machine::table_after(routes, MetaView::RemoveRoute(shard)).contains(x)
            <==> routes.contains(x) && x.shard != shard,
        routing_laws::one_each(machine::table_after(routes, MetaView::UpdateRoute(r))),
        routing_laws::one_each(machine::table_after(routes, MetaView::RemoveRoute(shard))),
{
    routing_laws::lemma_update_sets_one_route(routes, r, x);
    routing_laws::lemma_removal_forgets(routes, shard, x);
}

/// A key goes to the shard of the first route whose range it lies in, from the first key
/// on and before the end, where there is one; and to the first route's shard where it
/// lies in none.
pub proof fn lemma_key_goes_to_its_range(routes: Seq<RouteView>, key: Seq<u8>)
    ensures
        (exists|i: int|
            0 <= i < routes.len() && #[trigger] lies_in(key, routes[i]) && routing::shard_of(
                routes,
                key,
            ) == routes[i].shard && forall|j: int| 0 <= j < i ==> !lies_in(key, #[trigger] routes[j]))
            || ((forall|j: int| 0 <= j < routes.len() ==> !lies_in(key, #[trigger] routes[j])) && (
        routes.len() > 0 ==> routing::shard_of(routes, key) == routes[0].shard)),
{
    lemma_first_place(routes, key);
    let i = routing::first_cover(routes, key);
    if i < routes.len() {
        assert(lies_in(key, routes[i]));
    }
}

/// The key lies in the range of the route.
pub open spec fn lies_in(key: Seq<u8>, r: RouteView) -> bool {
    (key == r.start || bytes::lex_lt(r.start, key)) && (r.end.len() == 0 || bytes::lex_lt(
        key,
        r.end,
    ))
}

proof fn lemma_first_place(routes: Seq<RouteView>, key: Seq<u8>)
    ensures
        0 <= routing::first_cover(routes, key) <= routes.len(),
        routing::first_cover(routes, key) < routes.len() ==> lies_in(
            key,
            routes[routing::first_cover(routes, key)],
        ),
        forall|j: int|
            0 <= j < routing::first_cover(routes, key) ==> !lies_in(key, #[trigger] routes[j]),
    decreases routes.len(),
{
    if routes.len() > 0 {
        let r = routes[0];
        bytes::lemma_lex_total(key, r.start);
        bytes::lemma_lex_irreflexive(key);
        if bytes::lex_lt(r.start, key) {
            bytes::lemma_lex_asymmetric(r.start, key);
        }
        assert(routing::covers(r, key) <==> lies_in(key, r));
        if !routing::covers(r, key) {
            let rest = routes.drop_first();
            lemma_first_place(rest, key);
            assert forall|j: int| 0 <= j < routing::first_cover(routes, key) implies !lies_in(
                key,
                #[trigger] routes[j],
            ) by {
                if j > 0 {
                    assert(rest[j - 1] == routes[j]);
                }
            }
        }
    }
}

/// The group of a shard is that of its first route, and empty where it has none.
pub proof fn lemma_group_is_of_the_first_route(routes: Seq<RouteView>, shard: ShardId, i: int)
    requires
        0 <= i <= routes.len(),
        forall|j: int| 0 <= j < i ==> (#[trigger] routes[j]).shard != shard,
    ensures
        i < routes.len() && routes[i].shard == shard ==> routing::group_of(routes, shard)
            == routes[i].group,
        i == routes.len() ==> routing::group_of(routes, shard).len() == 0,
    decreases routes.len(),
{
    if routes.len() > 0 && i > 0 {
        let rest = routes.drop_first();
        assert(routes[0].shard != shard);
        assert forall|j: int| 0 <= j < i - 1 implies (#[trigger] rest[j]).shard != shard by {
            assert(rest[j] == routes[j + 1]);
        }
        lemma_group_is_of_the_first_route(rest, shard, i - 1);
        lemma_first_of_shard_bounds(rest, shard);
    }
}

proof fn lemma_first_of_shard_bounds(routes: Seq<RouteView>, shard: ShardId)
    ensures
        0 <= routing::first_of_shard(routes, shard) <= routes.len(),
    decreases routes.len(),
{
    if routes.len() > 0 {
        lemma_first_of_shard_bounds(routes.drop_first(), shard);
    }
}

} // verus!
