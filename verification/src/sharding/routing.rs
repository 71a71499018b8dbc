//! The table that says which shard holds a key, and which nodes hold a shard.
use crate::bytes;
use crate::consensus::messages;
use crate::consensus::messages::NodeId;
use crate::sharding::rebalance;
use vstd::prelude::*;

verus! {

/// The number of a shard.
#[derive(Debug, Clone, Copy, PartialEq, Eq, Structural, PartialOrd, Ord, Hash)]
pub struct ShardId(pub u32);

/// How much work each shard has.
#[derive(Debug, Clone)]
pub struct LoadReport {
    pub shard_loads: Vec<(ShardId, u64)>,
}

/// A change of where shards are.
#[derive(Debug, Clone, PartialEq, Eq)]
pub enum RebalanceOp {
    Move { shard: ShardId, from: NodeId, to: NodeId },
    Split { shard: ShardId, new_shard: ShardId, split_key: Vec<u8> },
    Merge { shard_a: ShardId, shard_b: ShardId, target: ShardId },
}

/// The keys from `start_key` up to, not including, `end_key` are on a shard,
/// which the nodes of `raft_group` hold. An empty `end_key` is no bound.
#[derive(Debug, Clone, PartialEq, Eq)]
pub struct RangeRoute {
    pub start_key: Vec<u8>,
    pub end_key: Vec<u8>,
    pub shard_id: ShardId,
    pub raft_group: Vec<NodeId>,
}

/// All routes.
#[derive(Debug, Clone, PartialEq, Eq)]
pub struct RoutingTable {
    pub routes: Vec<RangeRoute>,
}

/// A route as a mathematical value.
#[verifier::ext_equal]
pub struct RouteView {
    pub start: Seq<u8>,
    pub end: Seq<u8>,
    pub shard: ShardId,
    pub group: Seq<NodeId>,
}

impl View for RangeRoute {
    type V = RouteView;

    open spec fn view(&self) -> RouteView {
        RouteView {
            start: self.start_key@,
            end: self.end_key@,
            shard: self.shard_id,
            group: self.raft_group@,
        }
    }
}

pub open spec fn route_views(v: Seq<RangeRoute>) -> Seq<RouteView> {
    v.map_values(|r: RangeRoute| r@)
}

impl View for RoutingTable {
    type V = Seq<RouteView>;

    open spec fn view(&self) -> Seq<RouteView> {
        route_views(self.routes@)
    }
}

impl Default for RoutingTable {
    fn default() -> (r: Self)
        ensures
            r@ == Seq::<RouteView>::empty(),
    {
        RoutingTable::new()
    }
}

// ----------------------------------------------------------------------
// Looking up
// ----------------------------------------------------------------------
/// The key is in the route's range.
pub open spec fn covers(r: RouteView, key: Seq<u8>) -> bool {
    !bytes::lex_lt(key, r.start) && (r.end.len() == 0 || bytes::lex_lt(key, r.end))
}

/// The place of the first route that covers the key, or the number of routes.
pub open spec fn first_cover(routes: Seq<RouteView>, key: Seq<u8>) -> int
    decreases routes.len(),
{
    if routes.len() == 0 || covers(routes[0], key) {
        0
    } else {
        1 + first_cover(routes.drop_first(), key)
    }
}

/// The shard of a key: that of the first route that covers it; where none
/// does, that of the first route.
pub open spec fn shard_of(routes: Seq<RouteView>, key: Seq<u8>) -> ShardId {
    let i = first_cover(routes, key);
    if i < routes.len() {
        routes[i].shard
    } else if routes.len() > 0 {
        routes[0].shard
    } else {
        ShardId(0)
    }
}

/// The place of the first route of the shard, or the number of routes.
pub open spec fn first_of_shard(routes: Seq<RouteView>, shard: ShardId) -> int
    decreases routes.len(),
{
    if routes.len() == 0 || routes[0].shard == shard {
        0
    } else {
        1 + first_of_shard(routes.drop_first(), shard)
    }
}

/// The nodes that hold a shard.
pub open spec fn group_of(routes: Seq<RouteView>, shard: ShardId) -> Seq<NodeId> {
    let i = first_of_shard(routes, shard);
    if i < routes.len() {
        routes[i].group
    } else {
        Seq::empty()
    }
}

/// The nodes of the first `i` routes, each once, in the order in which they
/// first appear.
pub open spec fn nodes_of(routes: Seq<RouteView>) -> Seq<NodeId>
    decreases routes.len(),
{
    if routes.len() == 0 {
        Seq::empty()
    } else {
        rebalance::names_behind(nodes_of(routes.drop_last()), routes.last().group)
    }
}

/// Says where keys and shards are.
pub trait ShardRouter {
    /// The loads can be added up.
    spec fn can_plan(&self, current_load: &LoadReport) -> bool;

    fn shard_for_key(&self, key: &[u8]) -> ShardId;

    fn raft_group_for_shard(&self, shard: ShardId) -> Vec<NodeId>;

    fn rebalance_plan(&self, current_load: &LoadReport) -> Vec<RebalanceOp>
        requires
            self.can_plan(current_load),
    ;
}

impl RoutingTable {
    /// A table without routes.
    pub fn new() -> (r: Self)
        ensures
            r@ == Seq::<RouteView>::empty(),
    {
        let r = RoutingTable { routes: Vec::new() };
        assert(r@ =~= Seq::<RouteView>::empty());
        r
    }

    /// The nodes of all routes, each once.
    pub fn nodes(&self) -> (r: Vec<NodeId>)
        ensures
            r@ == nodes_of(self@),
    {
        let ghost all = self@;
        let mut r: Vec<NodeId> = Vec::new();
        let mut i: usize = 0;
        assert(all.take(0) =~= Seq::empty());
        while i < self.routes.len()
            invariant
                i <= self.routes@.len(),
                all == self@,
                r@ == nodes_of(all.take(i as int)),
            decreases self.routes@.len() - i,
        {
            proof {
                assert(all.take(i + 1).drop_last() =~= all.take(i as int));
                assert(all.take(i + 1).last() == self.routes@[i as int]@);
            }
            rebalance::add_names(&mut r, self.routes[i].raft_group.as_slice());
            i = i + 1;
        }
        assert(all.take(i as int) =~= all);
        r
    }

    /// Moves of shards between nodes, each of which narrows the gap between
    /// the node with the most and the one with the least work, until the gap
    /// is at most `threshold` or no shard can be moved.
    pub fn propose_rebalance(
        &self,
        current_load: &LoadReport,
        all_nodes: &[NodeId],
        threshold: u64,
    ) -> (r: Vec<RebalanceOp>)
        requires
            rebalance::loads_fit(self@, current_load.shard_loads@, all_nodes@),
        ensures
            rebalance::is_plan(
                r@,
                rebalance::names(all_nodes@),
                rebalance::initial(self@, current_load.shard_loads@, all_nodes@),
                current_load.shard_loads@,
                threshold,
            ),
    {
        rebalance::plan(
            self.routes.as_slice(),
            current_load.shard_loads.as_slice(),
            all_nodes,
            threshold,
        )
    }
}

impl ShardRouter for RoutingTable {
    open spec fn can_plan(&self, current_load: &LoadReport) -> bool {
        rebalance::loads_fit(self@, current_load.shard_loads@, nodes_of(self@))
    }

    fn shard_for_key(&self, key: &[u8]) -> (r: ShardId)
        ensures
            r == shard_of(self@, key@),
    {
        let ghost all = self@;
        let mut i: usize = 0;
        assert(all.skip(0) =~= all);
        while i < self.routes.len()
            invariant
                i <= self.routes@.len(),
                all == self@,
                first_cover(all, key@) == i + first_cover(all.skip(i as int), key@),
            decreases self.routes@.len() - i,
        {
            let route = &self.routes[i];
            proof {
                assert(all.skip(i as int)[0] == route@);
                assert(all.skip(i as int).drop_first() =~= all.skip(i + 1));
            }
            if !bytes::bytes_lt(key, route.start_key.as_slice()) && (route.end_key.len() == 0
                || bytes::bytes_lt(key, route.end_key.as_slice())) {
                return route.shard_id;
            }
            i = i + 1;
        }
        if self.routes.len() > 0 {
            self.routes[0].shard_id
        } else {
            ShardId(0)
        }
    }

    fn raft_group_for_shard(&self, shard: ShardId) -> (r: Vec<NodeId>)
        ensures
            r@ == group_of(self@, shard),
    {
        let ghost all = self@;
        let mut i: usize = 0;
        assert(all.skip(0) =~= all);
        while i < self.routes.len()
            invariant
                i <= self.routes@.len(),
                all == self@,
                first_of_shard(all, shard) == i + first_of_shard(all.skip(i as int), shard),
            decreases self.routes@.len() - i,
        {
            let route = &self.routes[i];
            proof {
                assert(all.skip(i as int)[0] == route@);
                assert(all.skip(i as int).drop_first() =~= all.skip(i + 1));
            }
            if route.shard_id == shard {
                return messages::copy_nodes(route.raft_group.as_slice());
            }
            i = i + 1;
        }
        Vec::new()
    }

    /// A plan over the nodes of all routes, with a threshold of one.
    fn rebalance_plan(&self, current_load: &LoadReport) -> (r: Vec<RebalanceOp>)
        ensures
            rebalance::is_plan(
                r@,
                rebalance::names(nodes_of(self@)),
                rebalance::initial(self@, current_load.shard_loads@, nodes_of(self@)),
                current_load.shard_loads@,
                1,
            ),
    {
        let nodes = self.nodes();
        self.propose_rebalance(current_load, nodes.as_slice(), 1)
    }
}

// ----------------------------------------------------------------------
// Changing the table
// ----------------------------------------------------------------------
/// The routes without those of a shard.
pub open spec fn without(routes: Seq<RouteView>, shard: ShardId) -> Seq<RouteView>
    decreases routes.len(),
{
    if routes.len() == 0 {
        Seq::empty()
    } else {
        let front = without(routes.drop_last(), shard);
        if routes.last().shard == shard {
            front
        } else {
            front.push(routes.last())
        }
    }
}

/// A route put in its place by its first key, behind its equals.
pub open spec fn insert_by_start(routes: Seq<RouteView>, r: RouteView) -> Seq<RouteView>
    decreases routes.len(),
{
    if routes.len() > 0 && bytes::lex_lt(r.start, routes.last().start) {
        insert_by_start(routes.drop_last(), r).push(routes.last())
    } else {
        routes.push(r)
    }
}

/// Routes in the order of their first keys; equals keep their order.
pub open spec fn sorted_by_start(routes: Seq<RouteView>) -> Seq<RouteView>
    decreases routes.len(),
{
    if routes.len() == 0 {
        Seq::empty()
    } else {
        insert_by_start(sorted_by_start(routes.drop_last()), routes.last())
    }
}

/// The table after a shard's route was set.
pub open spec fn updated(routes: Seq<RouteView>, r: RouteView) -> Seq<RouteView> {
    sorted_by_start(without(routes, r.shard).push(r))
}

proof fn lemma_insert_by_start(routes: Seq<RouteView>, r: RouteView, p: int)
    requires
        0 <= p <= routes.len(),
        p > 0 ==> !bytes::lex_lt(r.start, routes[p - 1].start),
        forall|i: int|
            p <= i < routes.len() ==> bytes::lex_lt(r.start, (#[trigger] routes[i]).start),
    ensures
        insert_by_start(routes, r) == routes.insert(p, r),
    decreases routes.len(),
{
    if p < routes.len() {
        assert(routes.last() == routes[routes.len() - 1]);
        let front = routes.drop_last();
        assert forall|i: int| p <= i < front.len() implies bytes::lex_lt(
            r.start,
            (#[trigger] front[i]).start,
        ) by {
            assert(front[i] == routes[i]);
        }
        lemma_insert_by_start(front, r, p);
        assert(front.insert(p, r).push(routes.last()) =~= routes.insert(p, r));
    } else {
        assert(routes.insert(p, r) =~= routes.push(r));
    }
}

fn insert_route(routes: &mut Vec<RangeRoute>, r: RangeRoute)
    ensures
        route_views(final(routes)@) == insert_by_start(route_views(old(routes)@), r@),
{
    let ghost all = route_views(routes@);
    let ghost view = r@;
    let mut p: usize = routes.len();
    while p > 0 && bytes::bytes_lt(r.start_key.as_slice(), routes[p - 1].start_key.as_slice())
        invariant
            p <= routes@.len(),
            all == route_views(routes@),
            view == r@,
            forall|i: int|
                p <= i < all.len() ==> bytes::lex_lt(view.start, (#[trigger] all[i]).start),
        decreases p,
    {
        assert(all[p - 1] == routes@[p - 1]@);
        p = p - 1;
    }
    proof {
        if p > 0 {
            assert(all[p - 1] == routes@[p - 1]@);
        }
        lemma_insert_by_start(all, view, p as int);
    }
    routes.insert(p, r);
    assert(route_views(routes@) =~= all.insert(p as int, view));
}

impl RoutingTable {
    /// Drops the routes of a shard.
    pub fn remove_route(&mut self, shard: ShardId)
        ensures
            final(self)@ == without(old(self)@, shard),
    {
        let ghost all = self@;
        let ghost mut done: int = 0;
        let mut rest: Vec<RangeRoute> = Vec::new();
        std::mem::swap(&mut rest, &mut self.routes);
        proof {
            assert(all.take(0) =~= Seq::empty());
            assert(all.skip(0) =~= all);
            assert(self@ =~= Seq::empty());
        }
        while rest.len() > 0
            invariant
                0 <= done <= all.len(),
                route_views(rest@) == all.skip(done),
                self@ == without(all.take(done), shard),
            decreases rest@.len(),
        {
            let ghost was = rest@;
            let ghost before = self@;
            let r = rest.remove(0);
            let ghost view = r@;
            proof {
                assert(route_views(was).len() == all.len() - done);
                assert(route_views(was)[0] == all.skip(done)[0]);
                assert(all[done] == view);
                assert(all.take(done + 1).drop_last() =~= all.take(done));
                assert(all.take(done + 1).last() == view);
                assert(route_views(rest@) =~= route_views(was).skip(1));
                assert(all.skip(done).skip(1) =~= all.skip(done + 1));
            }
            if r.shard_id != shard {
                self.routes.push(r);
                assert(self@ =~= before.push(view));
            }
            proof {
                done = done + 1;
            }
        }
        assert(all.take(done) =~= all) by {
            assert(route_views(rest@).len() == 0);
        }
    }

    /// Sets the route of a shard, and puts the routes in order.
    pub fn update_route(&mut self, route: RangeRoute)
        ensures
            final(self)@ == updated(old(self)@, route@),
    {
        self.remove_route(route.shard_id);
        let ghost left = self@;
        let ghost view = route@;
        self.routes.push(route);
        let ghost all = left.push(view);
        assert(self@ =~= all);
        let ghost mut done: int = 0;
        let mut rest: Vec<RangeRoute> = Vec::new();
        std::mem::swap(&mut rest, &mut self.routes);
        proof {
            assert(all.take(0) =~= Seq::empty());
            assert(all.skip(0) =~= all);
            assert(self@ =~= Seq::empty());
        }
        while rest.len() > 0
            invariant
                0 <= done <= all.len(),
                route_views(rest@) == all.skip(done),
                self@ == sorted_by_start(all.take(done)),
            decreases rest@.len(),
        {
            let ghost was = rest@;
            let r = rest.remove(0);
            proof {
                assert(route_views(was).len() == all.len() - done);
                assert(route_views(was)[0] == all.skip(done)[0]);
                assert(all[done] == r@);
                assert(all.take(done + 1).drop_last() =~= all.take(done));
                assert(all.take(done + 1).last() == r@);
                assert(route_views(rest@) =~= route_views(was).skip(1));
                assert(all.skip(done).skip(1) =~= all.skip(done + 1));
            }
            insert_route(&mut self.routes, r);
            proof {
                done = done + 1;
            }
        }
        assert(all.take(done) =~= all) by {
            assert(route_views(rest@).len() == 0);
        }
    }
}

} // verus!
