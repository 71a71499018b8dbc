//! What a server makes of requests, and a client of replies.
use crate::bytes;
use crate::bytes::{bytes_lt, copy_bytes, starts_with};
use crate::consensus::messages::{NodeId, TransportError};
use crate::decimal;
use crate::decimal::{parse_index, push_decimal};
use crate::index::order;
use crate::planner;
use crate::planner::{apply_radius, cut_hits, sort_hits};
use crate::sharding::commands::ShardCommand;
use crate::sharding::routing;
use crate::sharding::routing::{RouteView, RoutingTable, ShardId, ShardRouter};
use crate::storage::timestamp::HlcTimestamp;
use crate::text;
use crate::txn::coordinator::Mutation;
use std::collections::HashMap;
use vstd::prelude::*;

verus! {

broadcast use vstd::std_specs::hash::group_hash_axioms;

// ----------------------------------------------------------------------
// Keys of vectors
// ----------------------------------------------------------------------
/// What the keys of vectors start with: `vec:`.
pub open spec fn vector_prefix() -> Seq<u8> {
    seq![118u8, 101, 99, 58]
}

fn make_vector_prefix() -> (r: Vec<u8>)
    ensures
        r@ == vector_prefix(),
{
    let r: Vec<u8> = vec![118, 101, 99, 58];
    assert(r@ =~= vector_prefix());
    r
}

/// The key of the vector with this number.
pub open spec fn vector_key(id: u64) -> Seq<u8> {
    vector_prefix() + decimal::decimal(id as nat)
}

/// The number of the vector with this key, if it is the key of one.
pub open spec fn vector_id(key: Seq<u8>) -> Option<u64> {
    if vector_prefix().is_prefix_of(key) {
        decimal::parsed_index(key.skip(4))
    } else {
        None
    }
}

/// The key of a vector says its number.
pub proof fn lemma_vector_key(id: u64)
    ensures
        vector_id(vector_key(id)) == Some(id),
{
    let d = decimal::decimal(id as nat);
    decimal::lemma_decimal(id as nat);
    assert(vector_key(id).skip(4) =~= d);
    assert(48 <= d[0] <= 57);
    assert(decimal::unsigned(d) == d);
}

/// The key of the vector with this number.
pub fn make_vector_key(id: u64) -> (r: Vec<u8>)
    ensures
        r@ == vector_key(id),
{
    let mut r = make_vector_prefix();
    push_decimal(&mut r, id);
    r
}

/// The number of the vector with this key, if it is the key of one.
pub fn read_vector_key(key: &[u8]) -> (r: Option<u64>)
    ensures
        r == vector_id(key@),
{
    let prefix = make_vector_prefix();
    if starts_with(key, prefix.as_slice()) {
        let rest = vstd::slice::slice_subrange(key, 4, key.len());
        assert(rest@ =~= key@.skip(4));
        parse_index(rest)
    } else {
        None
    }
}

// ----------------------------------------------------------------------
// Reading and writing
// ----------------------------------------------------------------------
/// What a write comes to: the shard it goes to, the vector it is about, if it is
/// about one, and the command.
pub struct WritePlan {
    pub shard: ShardId,
    pub vector: Option<u64>,
    pub command: ShardCommand,
}

/// What it comes to that a value is written.
pub fn plan_put(table: &RoutingTable, key: Vec<u8>, value: Vec<u8>, ts: HlcTimestamp) -> (r:
    WritePlan)
    ensures
        r.shard == routing::shard_of(table@, key@),
        r.vector == vector_id(key@),
        r.command == (ShardCommand::Put { key, value, ts }),
{
    let shard = table.shard_for_key(key.as_slice());
    let vector = read_vector_key(key.as_slice());
    WritePlan { shard, vector, command: ShardCommand::Put { key, value, ts } }
}

/// What it comes to that a key is deleted.
pub fn plan_delete(table: &RoutingTable, key: Vec<u8>, ts: HlcTimestamp) -> (r: WritePlan)
    ensures
        r.shard == routing::shard_of(table@, key@),
        r.vector == vector_id(key@),
        r.command == (ShardCommand::Delete { key, ts }),
{
    let shard = table.shard_for_key(key.as_slice());
    let vector = read_vector_key(key.as_slice());
    WritePlan { shard, vector, command: ShardCommand::Delete { key, ts } }
}

/// As of when is read: the latest there is, unless said otherwise.
pub fn read_time(read_ts: Option<HlcTimestamp>) -> (r: HlcTimestamp)
    ensures
        r == match read_ts {
            Some(ts) => ts,
            None => HlcTimestamp { physical: u64::MAX, logical: u32::MAX },
        },
{
    match read_ts {
        Some(ts) => ts,
        None => HlcTimestamp { physical: u64::MAX, logical: u32::MAX },
    }
}

// ----------------------------------------------------------------------
// Searching vectors on all shards
// ----------------------------------------------------------------------
/// The node that is asked about a shard which is not here: the first of its
/// group, or the first of all where the group is empty.
pub open spec fn asked_node(r: RouteView) -> NodeId {
    if r.group.len() > 0 {
        r.group[0]
    } else {
        1
    }
}

/// The shards that are asked, in the order of the routes.
pub open spec fn targets(routes: Seq<RouteView>) -> Seq<(ShardId, NodeId)> {
    Seq::new(routes.len(), |i: int| (routes[i].shard, asked_node(routes[i])))
}

/// Nodes without those that repeat the one before.
pub open spec fn without_repeats(v: Seq<(u64, u32)>) -> Seq<(u64, u32)>
    decreases v.len(),
{
    if v.len() == 0 {
        Seq::empty()
    } else {
        let rest = without_repeats(v.drop_last());
        if rest.len() > 0 && rest.last().0 == v.last().0 {
            rest
        } else {
            rest.push(v.last())
        }
    }
}

/// The best `k` of what the shards gave.
pub open spec fn best(v: Seq<(u64, u32)>, k: usize) -> Seq<(u64, u32)> {
    planner::cut(without_repeats(planner::by_rank(v)), k)
}

/// Nodes stand in the order of their ranks.
pub open spec fn ascends(v: Seq<(u64, u32)>) -> bool {
    forall|i: int, j: int| 0 <= i < j < v.len() ==> (#[trigger] v[i]).1 <= (#[trigger] v[j]).1
}

proof fn lemma_without_repeats(v: Seq<(u64, u32)>)
    requires
        ascends(v),
    ensures
        ascends(without_repeats(v)),
        without_repeats(v).len() <= v.len(),
        forall|i: int| 0 <= i < without_repeats(v).len() ==> v.contains(#[trigger] without_repeats(v)[i]),
    decreases v.len(),
{
    if v.len() > 0 {
        let a = v.drop_last();
        lemma_without_repeats(a);
        let rest = without_repeats(a);
        let r = without_repeats(v);
        assert forall|i: int| 0 <= i < r.len() implies v.contains(#[trigger] r[i]) by {
            if i < rest.len() {
                assert(a.contains(rest[i]));
                let k = choose|k: int| 0 <= k < a.len() && a[k] == rest[i];
                assert(v[k] == rest[i]);
            } else {
                assert(v[v.len() - 1] == r[i]);
            }
        }
        assert forall|i: int, j: int| 0 <= i < j < r.len() implies (#[trigger] r[i]).1 <= (
        #[trigger] r[j]).1 by {
            if j >= rest.len() {
                assert(a.contains(rest[i]));
                let k = choose|k: int| 0 <= k < a.len() && a[k] == rest[i];
                assert(v[k].1 <= v[v.len() - 1].1);
            }
        }
    }
}

/// What a search on all shards gives is the nearest first, and no more than was
/// asked for.
pub proof fn lemma_best_ascends(v: Seq<(u64, u32)>, k: usize)
    ensures
        ascends(best(v, k)),
        best(v, k).len() <= k,
{
    let w = planner::wide(v);
    order::lemma_in_order(w);
    let sorted = planner::by_rank(v);
    assert forall|i: int, j: int| 0 <= i < j < sorted.len() implies (#[trigger] sorted[i]).1 <= (
    #[trigger] sorted[j]).1 by {
        lemma_small(w, i);
        lemma_small(w, j);
        assert(order::in_order(w)[i].1 <= order::in_order(w)[j].1);
    }
    lemma_without_repeats(sorted);
}

proof fn lemma_small(w: Seq<(u64, u64)>, i: int)
    requires
        0 <= i < order::in_order(w).len(),
        forall|k: int| 0 <= k < w.len() ==> (#[trigger] w[k]).1 <= u32::MAX,
    ensures
        order::in_order(w)[i].1 <= u32::MAX,
{
    broadcast use vstd::seq_lib::group_to_multiset_ensures;

    order::lemma_in_order(w);
    let x = order::in_order(w)[i];
    assert(order::in_order(w).contains(x));
    assert(w.to_multiset().count(x) > 0);
    assert(w.contains(x));
}

/// A search on all shards: each is asked in turn, here or where it is.
pub struct KnnGather {
    pub targets: Vec<(ShardId, NodeId)>,
    pub at: usize,
    pub k: usize,
    pub radius: Option<i64>,
    pub hits: Vec<(u64, u32)>,
}

impl KnnGather {
    pub open spec fn wf(&self) -> bool {
        self.at <= self.targets@.len()
    }

    /// No shard was asked yet.
    pub fn new(table: &RoutingTable, k: usize, radius: Option<i64>) -> (r: Self)
        ensures
            r.wf(),
            r.targets@ == targets(table@),
            r.at == 0,
            r.k == k,
            r.radius == radius,
            r.hits@.len() == 0,
    {
        let mut out: Vec<(ShardId, NodeId)> = Vec::new();
        let mut i: usize = 0;
        while i < table.routes.len()
            invariant
                i <= table.routes@.len(),
                out@ == targets(table@).take(i as int),
            decreases table.routes@.len() - i,
        {
            let route = &table.routes[i];
            let node: NodeId = if route.raft_group.len() > 0 {
                route.raft_group[0]
            } else {
                1
            };
            assert(table@[i as int] == route@);
            out.push((route.shard_id, node));
            assert(out@ =~= targets(table@).take(i + 1));
            i = i + 1;
        }
        assert(out@ =~= targets(table@));
        KnnGather { targets: out, at: 0, k, radius, hits: Vec::new() }
    }

    /// The shard to be asked next, and the node to ask where it is not here.
    pub fn next(&self) -> (r: Option<(ShardId, NodeId)>)
        requires
            self.wf(),
        ensures
            r == if self.at < self.targets@.len() {
                Some(self.targets@[self.at as int])
            } else {
                None
            },
    {
        if self.at < self.targets.len() {
            Some(self.targets[self.at])
        } else {
            None
        }
    }

    /// What the shard gave, which is here; nothing where it failed.
    pub fn on_local(&mut self, hits: Option<Vec<(u64, u32)>>)
        requires
            old(self).wf(),
            old(self).at < old(self).targets@.len(),
        ensures
            final(self).wf(),
            final(self).targets == old(self).targets,
            final(self).k == old(self).k,
            final(self).radius == old(self).radius,
            final(self).at == old(self).at + 1,
            final(self).hits@ == match hits {
                Some(v) => old(self).hits@ + planner::in_range(old(self).radius, v@),
                None => old(self).hits@,
            },
    {
        match hits {
            Some(v) => {
                let mut near = apply_radius(v, self.radius);
                self.hits.append(&mut near);
            },
            None => {},
        }
        let n: usize = self.targets.len();
        assert(self.at < n);
        self.at = self.at + 1;
    }

    /// What the shard gave, which is elsewhere; nothing where it could not be asked.
    pub fn on_remote(&mut self, hits: Option<Vec<(u64, u32)>>)
        requires
            old(self).wf(),
            old(self).at < old(self).targets@.len(),
        ensures
            final(self).wf(),
            final(self).targets == old(self).targets,
            final(self).k == old(self).k,
            final(self).radius == old(self).radius,
            final(self).at == old(self).at + 1,
            final(self).hits@ == match hits {
                Some(v) => old(self).hits@ + v@,
                None => old(self).hits@,
            },
    {
        match hits {
            Some(v) => {
                let mut v = v;
                self.hits.append(&mut v);
            },
            None => {},
        }
        let n: usize = self.targets.len();
        assert(self.at < n);
        self.at = self.at + 1;
    }

    /// The best of what the shards gave.
    pub fn finish(self) -> (r: Vec<(u64, u32)>)
        ensures
            r@ == best(self.hits@, self.k),
    {
        let sorted = sort_hits(self.hits);
        let mut out: Vec<(u64, u32)> = Vec::new();
        let mut i: usize = 0;
        while i < sorted.len()
            invariant
                i <= sorted@.len(),
                out@ == without_repeats(sorted@.take(i as int)),
            decreases sorted@.len() - i,
        {
            assert(sorted@.take(i + 1).drop_last() =~= sorted@.take(i as int));
            let n: usize = out.len();
            if n == 0 || out[n - 1].0 != sorted[i].0 {
                out.push(sorted[i]);
            }
            i = i + 1;
        }
        assert(sorted@.take(i as int) =~= sorted@);
        cut_hits(out, self.k)
    }
}

// ----------------------------------------------------------------------
// Reading a range of keys on all shards
// ----------------------------------------------------------------------
/// Keys of the route may lie in the range; an empty end is no bound.
pub open spec fn touches(r: RouteView, start: Seq<u8>, end: Seq<u8>) -> bool {
    &&& r.end.len() == 0 || !bytes::lex_lt(r.end, start)
    &&& end.len() == 0 || bytes::lex_lt(r.start, end)
}

/// The keys by which the shards of a range are found, in the order of the routes.
pub open spec fn lookups(routes: Seq<RouteView>, start: Seq<u8>, end: Seq<u8>) -> Seq<Seq<u8>>
    decreases routes.len(),
{
    if routes.len() == 0 {
        Seq::empty()
    } else if touches(routes.last(), start, end) {
        lookups(routes.drop_last(), start, end).push(routes.last().start)
    } else {
        lookups(routes.drop_last(), start, end)
    }
}

/// The keys by which the shards of a range are found.
pub fn range_lookups(table: &RoutingTable, start: &[u8], end: &[u8]) -> (r: Vec<Vec<u8>>)
    ensures
        bytes::views(r@) == lookups(table@, start@, end@),
{
    let mut out: Vec<Vec<u8>> = Vec::new();
    let mut i: usize = 0;
    assert(bytes::views(out@) =~= lookups(table@.take(0), start@, end@));
    while i < table.routes.len()
        invariant
            i <= table.routes@.len(),
            bytes::views(out@) == lookups(table@.take(i as int), start@, end@),
        decreases table.routes@.len() - i,
    {
        let route = &table.routes[i];
        let before: bool = route.end_key.len() > 0 && bytes_lt(route.end_key.as_slice(), start);
        let behind: bool = end.len() > 0 && !bytes_lt(route.start_key.as_slice(), end);
        let ghost had = out@;
        proof {
            assert(table@[i as int] == route@);
            assert(table@.take(i + 1).drop_last() =~= table@.take(i as int));
            assert(table@.take(i + 1).last() == route@);
        }
        if !before && !behind {
            out.push(copy_bytes(route.start_key.as_slice()));
            assert(bytes::views(out@) =~= bytes::views(had).push(route@.start));
        }
        i = i + 1;
    }
    assert(table@.take(i as int) =~= table@);
    out
}

pub type PairView = (Seq<u8>, Seq<u8>);

/// Keys and values as mathematical values.
pub open spec fn pair_views(v: Seq<(Vec<u8>, Vec<u8>)>) -> Seq<PairView> {
    v.map_values(|p: (Vec<u8>, Vec<u8>)| (p.0@, p.1@))
}

/// The key is one that only the database itself uses: it starts with `__`.
pub open spec fn is_inner(key: Seq<u8>) -> bool {
    seq![95u8, 95].is_prefix_of(key)
}

/// A pair put behind all those whose keys do not come after its own.
pub open spec fn put_pair(s: Seq<PairView>, x: PairView) -> Seq<PairView>
    decreases s.len(),
{
    if s.len() == 0 || !bytes::lex_lt(x.0, s.last().0) {
        s.push(x)
    } else {
        put_pair(s.drop_last(), x).push(s.last())
    }
}

/// The pairs that are not the database's own, in the order of their keys; of those
/// with one key each keeps its place.
pub open spec fn listed(v: Seq<PairView>) -> Seq<PairView>
    decreases v.len(),
{
    if v.len() == 0 {
        Seq::empty()
    } else if is_inner(v.last().0) {
        listed(v.drop_last())
    } else {
        put_pair(listed(v.drop_last()), v.last())
    }
}

proof fn lemma_put_pair(s: Seq<PairView>, x: PairView, p: int)
    requires
        0 <= p <= s.len(),
        p == 0 || !bytes::lex_lt(x.0, s[p - 1].0),
        forall|k: int| p <= k < s.len() ==> bytes::lex_lt(x.0, (#[trigger] s[k]).0),
    ensures
        put_pair(s, x) == s.insert(p, x),
    decreases s.len(),
{
    if p == s.len() {
        assert(s.insert(p, x) =~= s.push(x));
    } else {
        assert(bytes::lex_lt(x.0, s[s.len() - 1].0));
        lemma_put_pair(s.drop_last(), x, p);
        assert(s.insert(p, x) =~= s.drop_last().insert(p, x).push(s.last()));
    }
}

/// The pairs that shards gave, without the database's own, in the order of their
/// keys.
pub fn list_pairs(found: Vec<(Vec<u8>, Vec<u8>)>) -> (r: Vec<(Vec<u8>, Vec<u8>)>)
    ensures
        pair_views(r@) == listed(pair_views(found@)),
{
    let inner: Vec<u8> = vec![95, 95];
    assert(inner@ =~= seq![95u8, 95]);
    let mut out: Vec<(Vec<u8>, Vec<u8>)> = Vec::new();
    let mut i: usize = 0;
    let ghost all = pair_views(found@);
    assert(pair_views(out@) =~= listed(all.take(0)));
    while i < found.len()
        invariant
            i <= found@.len(),
            all == pair_views(found@),
            inner@ == seq![95u8, 95],
            pair_views(out@) == listed(all.take(i as int)),
        decreases found@.len() - i,
    {
        let pair = &found[i];
        proof {
            assert(all[i as int] == (pair.0@, pair.1@));
            assert(all.take(i + 1).drop_last() =~= all.take(i as int));
            assert(all.take(i + 1).last() == all[i as int]);
        }
        if !starts_with(pair.0.as_slice(), inner.as_slice()) {
            let ghost had = out@;
            let mut p: usize = out.len();
            while p > 0 && bytes_lt(pair.0.as_slice(), out[p - 1].0.as_slice())
                invariant
                    p <= out@.len(),
                    had == out@,
                    forall|k: int|
                        p <= k < had.len() ==> bytes::lex_lt(
                            pair.0@,
                            (#[trigger] pair_views(had)[k]).0,
                        ),
                decreases p,
            {
                p = p - 1;
            }
            proof {
                assert(p > 0 ==> pair_views(had)[p - 1].0 == had[p - 1].0@);
                lemma_put_pair(pair_views(had), all[i as int], p as int);
            }
            out.insert(p, (copy_bytes(pair.0.as_slice()), copy_bytes(pair.1.as_slice())));
            assert(pair_views(out@) =~= pair_views(had).insert(p as int, all[i as int]));
        }
        i = i + 1;
    }
    assert(all.take(i as int) =~= all);
    out
}

// ----------------------------------------------------------------------
// Messages
// ----------------------------------------------------------------------
/// What kind of change a message says it holds.
#[derive(Debug, Clone, Copy, PartialEq, Eq, Structural)]
pub enum MutationKind {
    Put,
    Delete,
}

/// The change that a message holds; a kind that is not known is refused.
pub fn mutation_of(kind: Option<MutationKind>, key: Vec<u8>, value: Vec<u8>) -> (r: Result<
    Mutation,
    String,
>)
    ensures
        match kind {
            Some(MutationKind::Put) => r == Ok::<Mutation, String>(Mutation::Put(key, value)),
            Some(MutationKind::Delete) => r == Ok::<Mutation, String>(Mutation::Delete(key)),
            None => r matches Err(e) && e@ == "Unknown mutation type"@,
        },
{
    match kind {
        Some(MutationKind::Put) => Ok(Mutation::Put(key, value)),
        Some(MutationKind::Delete) => Ok(Mutation::Delete(key)),
        None => Err("Unknown mutation type".to_owned()),
    }
}

/// What stands in a message for a change.
pub fn mutation_parts(m: Mutation) -> (r: (MutationKind, Vec<u8>, Vec<u8>))
    ensures
        match m {
            Mutation::Put(key, value) => r == (MutationKind::Put, key, value),
            Mutation::Delete(key) => r.0 == MutationKind::Delete && r.1 == key && r.2@.len() == 0,
        },
{
    match m {
        Mutation::Put(key, value) => (MutationKind::Put, key, value),
        Mutation::Delete(key) => (MutationKind::Delete, key, Vec::new()),
    }
}

/// A time that a request must have.
pub fn required_start(ts: Option<HlcTimestamp>) -> (r: Result<HlcTimestamp, String>)
    ensures
        match ts {
            Some(t) => r == Ok::<HlcTimestamp, String>(t),
            None => r matches Err(e) && e@ == "Missing start_ts"@,
        },
{
    match ts {
        Some(t) => Ok(t),
        None => Err("Missing start_ts".to_owned()),
    }
}

/// A time that a request to commit must have.
pub fn required_commit(ts: Option<HlcTimestamp>) -> (r: Result<HlcTimestamp, String>)
    ensures
        match ts {
            Some(t) => r == Ok::<HlcTimestamp, String>(t),
            None => r matches Err(e) && e@ == "Missing commit_ts"@,
        },
{
    match ts {
        Some(t) => Ok(t),
        None => Err("Missing commit_ts".to_owned()),
    }
}

/// What is said of a shard that is not here.
pub fn shard_not_found(shard: u32) -> (r: String)
    ensures
        r@ == "Shard "@ + text::number(shard as nat) + " not found"@,
{
    let mut s: String = "Shard ".to_owned();
    text::push_number(&mut s, shard as u64);
    text::push_text(&mut s, " not found");
    s
}

/// What a reply comes to that says whether a request was carried out.
pub fn reply_done(success: bool, error: String) -> (r: Result<(), String>)
    ensures
        r == if success {
            Ok::<(), String>(())
        } else {
            Err::<(), String>(error)
        },
{
    if success {
        Ok(())
    } else {
        Err(error)
    }
}

/// What a reply comes to that brings a value, if there is one.
pub fn reply_value(found: bool, value: Vec<u8>, error: String) -> (r: Result<
    Option<Vec<u8>>,
    String,
>)
    ensures
        r == if error@.len() > 0 {
            Err::<Option<Vec<u8>>, String>(error)
        } else if found {
            Ok::<Option<Vec<u8>>, String>(Some(value))
        } else {
            Ok::<Option<Vec<u8>>, String>(None)
        },
{
    if has_text(&error) {
        return Err(error);
    }
    if found {
        Ok(Some(value))
    } else {
        Ok(None)
    }
}

/// What a reply comes to that brings a list.
pub fn reply_list<T>(list: Vec<T>, error: String) -> (r: Result<Vec<T>, String>)
    ensures
        r == if error@.len() > 0 {
            Err::<Vec<T>, String>(error)
        } else {
            Ok::<Vec<T>, String>(list)
        },
{
    if has_text(&error) {
        return Err(error);
    }
    Ok(list)
}

/// What a reply comes to that brings the time at which a transaction starts.
pub fn reply_start(ts: Option<HlcTimestamp>) -> (r: Result<HlcTimestamp, String>)
    ensures
        match ts {
            Some(t) => r == Ok::<HlcTimestamp, String>(t),
            None => r matches Err(e) && e@ == "Missing start timestamp in response"@,
        },
{
    match ts {
        Some(t) => Ok(t),
        None => Err("Missing start timestamp in response".to_owned()),
    }
}

fn has_text(s: &String) -> (r: bool)
    ensures
        r == (s@.len() > 0),
{
    s.as_str().unicode_len() > 0
}

// ----------------------------------------------------------------------
// Peers and servers
// ----------------------------------------------------------------------
/// Where the other nodes are.
pub struct AddressBook {
    pub peer_addrs: HashMap<NodeId, String>,
}

impl AddressBook {
    /// No node is known.
    pub fn new() -> (r: Self)
        ensures
            r.peer_addrs@ == Map::<NodeId, String>::empty(),
    {
        AddressBook { peer_addrs: HashMap::new() }
    }

    /// A node is at this address.
    pub fn add_peer(&mut self, node_id: NodeId, addr: String)
        ensures
            final(self).peer_addrs@ == old(self).peer_addrs@.insert(node_id, addr),
    {
        self.peer_addrs.insert(node_id, addr);
    }

    /// The address of a node.
    pub fn address(&self, to: NodeId) -> (r: Result<String, TransportError>)
        ensures
            if self.peer_addrs@.contains_key(to) {
                r matches Ok(a) && a@ == self.peer_addrs@[to]@
            } else {
                r matches Err(TransportError::Other(m)) && m@
                    == "No address registered for node "@ + text::number(to as nat)
            },
    {
        match self.peer_addrs.get(&to) {
            Some(a) => Ok(a.as_str().to_owned()),
            None => {
                let mut s: String = "No address registered for node ".to_owned();
                text::push_number(&mut s, to);
                Err(TransportError::Other(s))
            },
        }
    }
}

/// A request that is sent to one server after the other until one carries it out.
pub struct Failover {
    pub last_error: String,
}

impl Failover {
    /// No server was asked yet.
    pub fn new() -> (r: Self)
        ensures
            r.last_error@ == "No client available"@,
    {
        Failover { last_error: "No client available".to_owned() }
    }

    /// What a server answered: the request is done, or another is to be asked.
    pub fn on_reply<T>(&mut self, reply: Result<T, String>) -> (r: Option<T>)
        ensures
            match reply {
                Ok(v) => r == Some(v) && *final(self) == *old(self),
                Err(e) => r is None && final(self).last_error == e,
            },
    {
        match reply {
            Ok(v) => Some(v),
            Err(e) => {
                self.last_error = e;
                None
            },
        }
    }

    /// No server is left: what the last one said.
    pub fn give_up<T>(self) -> (r: Result<T, String>)
        ensures
            r == Err::<T, String>(self.last_error),
    {
        Err(self.last_error)
    }
}

/// A client that looks for servers: the first table of routes that one gives is
/// kept.
pub struct Joining {
    pub servers: usize,
    pub table: Option<RoutingTable>,
}

impl Joining {
    /// No server was found yet.
    pub fn new() -> (r: Self)
        ensures
            r.servers == 0,
            r.table is None,
    {
        Joining { servers: 0, table: None }
    }

    /// Whether a server that was found is to be asked for its table.
    pub fn wants_table(&self) -> (r: bool)
        ensures
            r == (self.table is None),
    {
        self.table.is_none()
    }

    /// A server was found, and gave its table if it was asked and could.
    pub fn on_server(&mut self, table: Option<RoutingTable>)
        requires
            old(self).servers < usize::MAX,
        ensures
            final(self).servers == old(self).servers + 1,
            final(self).table == if old(self).table is None {
                table
            } else {
                old(self).table
            },
    {
        self.servers = self.servers + 1;
        if self.table.is_none() {
            self.table = table;
        }
    }

    /// All were tried: the table, an empty one where none gave one.
    pub fn finish(self) -> (r: Result<RoutingTable, String>)
        ensures
            if self.servers == 0 {
                r matches Err(e) && e@ == "Failed to connect to any seed server"@
            } else {
                r matches Ok(t) && match self.table {
                    Some(known) => t == known,
                    None => t@ == Seq::<RouteView>::empty(),
                }
            },
    {
        if self.servers == 0 {
            return Err("Failed to connect to any seed server".to_owned());
        }
        match self.table {
            Some(t) => Ok(t),
            None => Ok(RoutingTable::new()),
        }
    }
}

/// What is said where no server gives its table.
pub fn refresh_failed() -> (r: String)
    ensures
        r@ == "Failed to refresh routing table"@,
{
    "Failed to refresh routing table".to_owned()
}

} // verus!
