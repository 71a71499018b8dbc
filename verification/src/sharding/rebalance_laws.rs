//! What a plan of moves does, in terms of the routes and of the work of shards.
use crate::consensus::messages::NodeId;
use crate::sharding::rebalance;
use crate::sharding::rebalance::{Balance, Step};
use crate::sharding::routing;
use crate::sharding::routing::{RebalanceOp, RouteView, ShardId};
use vstd::prelude::*;

verus! {

// ----------------------------------------------------------------------
// What nodes hold
// ----------------------------------------------------------------------
/// A route places the shard on the node.
pub open spec fn is_placed(routes: Seq<RouteView>, node: NodeId, shard: ShardId) -> bool {
    exists|i: int|
        0 <= i < routes.len() && (#[trigger] routes[i]).shard == shard && routes[i].group.contains(
            node,
        )
}

proof fn lemma_shard_in_group(group: Seq<NodeId>, node: NodeId, shard: ShardId)
    ensures
        rebalance::shard_in_group(group, node, shard).len() > 0 <==> group.contains(node),
        forall|k: int|
            0 <= k < rebalance::shard_in_group(group, node, shard).len()
                ==> #[trigger] rebalance::shard_in_group(group, node, shard)[k] == shard,
        group.no_duplicates() ==> rebalance::shard_in_group(group, node, shard).len() <= 1,
    decreases group.len(),
{
    if group.len() > 0 {
        let front = group.drop_last();
        lemma_shard_in_group(front, node, shard);
        if front.contains(node) {
            let i = choose|i: int| 0 <= i < front.len() && front[i] == node;
            assert(group[i] == node);
        }
        if group.contains(node) && group.last() != node {
            let i = choose|i: int| 0 <= i < group.len() && group[i] == node;
            assert(front[i] == node);
        }
        if group.last() == node {
            assert(group[group.len() - 1] == node);
        }
    }
}

/// The shards on a node are those whose group the node is in: all of them, and no other.
pub proof fn lemma_shards_on_a_node(routes: Seq<RouteView>, node: NodeId, shard: ShardId)
    ensures
        rebalance::shards_on(routes, node).contains(shard) <==> exists|i: int|
            0 <= i < routes.len() && (#[trigger] routes[i]).shard == shard
                && routes[i].group.contains(node),
    decreases routes.len(),
{
    if routes.len() > 0 {
        let front = routes.drop_last();
        let r = routes.last();
        lemma_shards_on_a_node(front, node, shard);
        lemma_shard_in_group(r.group, node, r.shard);
        let a = rebalance::shards_on(front, node);
        let b = rebalance::shard_in_group(r.group, node, r.shard);
        let all = rebalance::shards_on(routes, node);
        if all.contains(shard) {
            let k = choose|k: int| 0 <= k < all.len() && all[k] == shard;
            if k < a.len() {
                assert(a[k] == shard);
                let i = choose|i: int|
                    0 <= i < front.len() && (#[trigger] front[i]).shard == shard
                        && front[i].group.contains(node);
                assert(routes[i].shard == shard);
            } else {
                assert(b[k - a.len()] == shard);
                assert(routes[routes.len() - 1].shard == shard);
            }
        }
        if is_placed(routes, node, shard) {
            let i = choose|i: int|
                0 <= i < routes.len() && (#[trigger] routes[i]).shard == shard
                    && routes[i].group.contains(node);
            if i < front.len() {
                assert(front[i].shard == shard);
                let k = choose|k: int| 0 <= k < a.len() && a[k] == shard;
                assert(all[k] == shard);
            } else {
                assert(b[0] == shard);
                assert(all[a.len() as int] == shard);
            }
        }
    }
}

/// Where each shard has one route and no node is twice in a group, no shard is listed
/// twice for a node.
pub proof fn lemma_shards_on_a_node_are_distinct(routes: Seq<RouteView>, node: NodeId)
    requires
        forall|i: int, j: int|
            0 <= i < j < routes.len() ==> (#[trigger] routes[i]).shard != (
            #[trigger] routes[j]).shard,
        forall|i: int| 0 <= i < routes.len() ==> (#[trigger] routes[i]).group.no_duplicates(),
    ensures
        rebalance::shards_on(routes, node).no_duplicates(),
    decreases routes.len(),
{
    if routes.len() > 0 {
        let front = routes.drop_last();
        let r = routes.last();
        assert forall|i: int, j: int| 0 <= i < j < front.len() implies (#[trigger] front[i]).shard
            != (#[trigger] front[j]).shard by {
            assert(front[i] == routes[i] && front[j] == routes[j]);
        }
        assert forall|i: int| 0 <= i < front.len() implies (
        #[trigger] front[i]).group.no_duplicates() by {
            assert(front[i] == routes[i]);
        }
        lemma_shards_on_a_node_are_distinct(front, node);
        assert(routes[routes.len() - 1].group.no_duplicates());
        lemma_shard_in_group(r.group, node, r.shard);
        lemma_shards_on_a_node(front, node, r.shard);
        let a = rebalance::shards_on(front, node);
        let b = rebalance::shard_in_group(r.group, node, r.shard);
        let all = rebalance::shards_on(routes, node);
        if is_placed(front, node, r.shard) {
            let i = choose|i: int|
                0 <= i < front.len() && (#[trigger] front[i]).shard == r.shard
                    && front[i].group.contains(node);
            assert(routes[i].shard != routes[routes.len() - 1].shard);
        }
        assert forall|i: int, j: int| 0 <= i < all.len() && 0 <= j < all.len() && i != j implies all[i]
            != all[j] by {
            if i < a.len() && j < a.len() {
                assert(a[i] != a[j]);
            } else if i < a.len() {
                assert(a.contains(all[i]));
            } else if j < a.len() {
                assert(a.contains(all[j]));
            }
        }
    }
}

/// The work of a shard is what the report says of it last.
pub proof fn lemma_weight_is_the_last_report(report: Seq<(ShardId, u64)>, shard: ShardId, i: int)
    requires
        0 <= i < report.len(),
        report[i].0 == shard,
        forall|j: int| i < j < report.len() ==> (#[trigger] report[j]).0 != shard,
    ensures
        rebalance::weight(report, shard) == report[i].1,
    decreases report.len(),
{
    if i < report.len() - 1 {
        assert(report[report.len() - 1].0 != shard);
        lemma_weight_is_the_last_report(report.drop_last(), shard, i);
    }
}

/// The work of a shard that the report does not name is one.
pub proof fn lemma_weight_is_one(report: Seq<(ShardId, u64)>, shard: ShardId)
    requires
        forall|j: int| 0 <= j < report.len() ==> (#[trigger] report[j]).0 != shard,
    ensures
        rebalance::weight(report, shard) == 1,
    decreases report.len(),
{
    if report.len() > 0 {
        assert(report[report.len() - 1].0 != shard);
        lemma_weight_is_one(report.drop_last(), shard);
    }
}

/// The work of shards together is the sum of the work of each.
pub proof fn lemma_work_adds_up(
    report: Seq<(ShardId, u64)>,
    a: Seq<ShardId>,
    b: Seq<ShardId>,
    shard: ShardId,
)
    ensures
        rebalance::work(report, a + b) == rebalance::work(report, a) + rebalance::work(report, b),
        rebalance::work(report, seq![shard]) == rebalance::weight(report, shard),
        rebalance::work(report, Seq::empty()) == 0,
    decreases b.len(),
{
    reveal_with_fuel(rebalance::work, 2);
    assert(seq![shard].drop_last() =~= Seq::<ShardId>::empty());
    if b.len() == 0 {
        assert(a + b =~= a);
    } else {
        assert((a + b).drop_last() =~= a + b.drop_last());
        lemma_work_adds_up(report, a, b.drop_last(), shard);
    }
}

/// The nodes that are counted are those that were given, each once.
pub proof fn lemma_names_are_the_nodes(have: Seq<NodeId>, more: Seq<NodeId>, n: NodeId)
    ensures
        rebalance::names_behind(have, more).contains(n) <==> have.contains(n) || more.contains(n),
        have.no_duplicates() ==> rebalance::names_behind(have, more).no_duplicates(),
        rebalance::names(more).no_duplicates(),
        rebalance::names(more).contains(n) <==> more.contains(n),
        have.is_prefix_of(rebalance::names_behind(have, more)),
{
    lemma_names(have, more, n);
    lemma_names(Seq::empty(), more, n);
}

proof fn lemma_names(have: Seq<NodeId>, more: Seq<NodeId>, n: NodeId)
    ensures
        rebalance::names_behind(have, more).contains(n) <==> have.contains(n) || more.contains(n),
        have.no_duplicates() ==> rebalance::names_behind(have, more).no_duplicates(),
        have.is_prefix_of(rebalance::names_behind(have, more)),
    decreases more.len(),
{
    if more.len() > 0 {
        let less = more.drop_last();
        let x = more.last();
        lemma_names(have, less, n);
        let front = rebalance::names_behind(have, less);
        let out = rebalance::names_behind(have, more);
        assert(more[more.len() - 1] == x);
        if less.contains(n) {
            let i = choose|i: int| 0 <= i < less.len() && less[i] == n;
            assert(more[i] == n);
        }
        if more.contains(n) && n != x {
            let i = choose|i: int| 0 <= i < more.len() && more[i] == n;
            assert(less[i] == n);
        }
        if front.contains(n) {
            let i = choose|i: int| 0 <= i < front.len() && front[i] == n;
            assert(out[i] == n);
        }
        if out.contains(n) && n != x {
            let i = choose|i: int| 0 <= i < out.len() && out[i] == n;
            assert(front[i] == n);
        }
        if !front.contains(x) {
            assert(out[front.len() as int] == x);
        }
    }
}

/// The nodes of a table are those in the groups of its routes, each once.
pub proof fn lemma_nodes_of_a_table(routes: Seq<RouteView>, n: NodeId)
    ensures
        routing::nodes_of(routes).contains(n) <==> exists|i: int|
            0 <= i < routes.len() && (#[trigger] routes[i]).group.contains(n),
        routing::nodes_of(routes).no_duplicates(),
    decreases routes.len(),
{
    if routes.len() > 0 {
        let front = routes.drop_last();
        lemma_nodes_of_a_table(front, n);
        lemma_names(routing::nodes_of(front), routes.last().group, n);
        if routing::nodes_of(front).contains(n) {
            let i = choose|i: int| 0 <= i < front.len() && (#[trigger] front[i]).group.contains(n);
            assert(routes[i].group.contains(n));
        }
        if routes.last().group.contains(n) {
            assert(routes[routes.len() - 1].group.contains(n));
        }
        if exists|i: int| 0 <= i < routes.len() && (#[trigger] routes[i]).group.contains(n) {
            let i = choose|i: int|
                0 <= i < routes.len() && (#[trigger] routes[i]).group.contains(n);
            if i < front.len() {
                assert(front[i].group.contains(n));
            }
        }
    }
}

// ----------------------------------------------------------------------
// Plans
// ----------------------------------------------------------------------
/// The node holds the shard when the first `k` moves have been made.
pub open spec fn holds(
    routes: Seq<RouteView>,
    ops: Seq<RebalanceOp>,
    k: int,
    node: NodeId,
    shard: ShardId,
) -> bool
    decreases k,
{
    if k <= 0 {
        is_placed(routes, node, shard)
    } else {
        match ops[k - 1] {
            RebalanceOp::Move { shard: s, from, to } => if s == shard && node == to {
                true
            } else if s == shard && node == from {
                false
            } else {
                holds(routes, ops, k - 1, node, shard)
            },
            _ => holds(routes, ops, k - 1, node, shard),
        }
    }
}

proof fn lemma_without(shards: Seq<ShardId>, shard: ShardId, s: ShardId)
    ensures
        rebalance::shards_without(shards, shard).contains(s) <==> shards.contains(s) && s != shard,
    decreases shards.len(),
{
    if shards.len() > 0 {
        let less = shards.drop_last();
        lemma_without(less, shard, s);
        let front = rebalance::shards_without(less, shard);
        let out = rebalance::shards_without(shards, shard);
        assert(shards[shards.len() - 1] == shards.last());
        if less.contains(s) {
            let i = choose|i: int| 0 <= i < less.len() && less[i] == s;
            assert(shards[i] == s);
        }
        if shards.contains(s) && s != shards.last() {
            let i = choose|i: int| 0 <= i < shards.len() && shards[i] == s;
            assert(less[i] == s);
        }
        if front.contains(s) {
            let i = choose|i: int| 0 <= i < front.len() && front[i] == s;
            assert(out[i] == s);
        }
        if out.contains(s) && s != shards.last() {
            let i = choose|i: int| 0 <= i < out.len() && out[i] == s;
            assert(front[i] == s);
        }
        if shards.last() != shard {
            assert(out[front.len() as int] == shards.last());
        }
    }
}

proof fn lemma_balance_keeps_its_size(
    b: Balance,
    report: Seq<(ShardId, u64)>,
    threshold: u64,
    k: nat,
)
    requires
        b.loads.len() == b.shards.len(),
    ensures
        rebalance::after_steps(b, report, threshold, k).loads.len() == b.loads.len(),
        rebalance::after_steps(b, report, threshold, k).shards.len() == b.shards.len(),
    decreases k,
{
    if k > 0 {
        lemma_balance_keeps_its_size(b, report, threshold, (k - 1) as nat);
        let c = rebalance::after_steps(b, report, threshold, (k - 1) as nat);
        match rebalance::next_step(c, report, threshold) {
            Some(m) => {
                rebalance::lemma_move_evens_out(c, report, threshold, m);
            },
            None => {},
        }
    }
}

proof fn lemma_plan_tracks(
    routes: Seq<RouteView>,
    report: Seq<(ShardId, u64)>,
    nodes: Seq<NodeId>,
    threshold: u64,
    ops: Seq<RebalanceOp>,
    k: int,
    i: int,
    s: ShardId,
)
    requires
        rebalance::is_plan(
            ops,
            rebalance::names(nodes),
            rebalance::initial(routes, report, nodes),
            report,
            threshold,
        ),
        0 <= k <= ops.len(),
        0 <= i < rebalance::names(nodes).len(),
    ensures
        rebalance::after_steps(
            rebalance::initial(routes, report, nodes),
            report,
            threshold,
            k as nat,
        ).shards[i].contains(s) <==> holds(routes, ops, k, rebalance::names(nodes)[i], s),
    decreases k,
{
    let ns = rebalance::names(nodes);
    let b = rebalance::initial(routes, report, nodes);
    lemma_names_are_the_nodes(Seq::empty(), nodes, ns[i]);
    if k == 0 {
        lemma_shards_on_a_node(routes, ns[i], s);
    } else {
        lemma_plan_tracks(routes, report, nodes, threshold, ops, k - 1, i, s);
        lemma_balance_keeps_its_size(b, report, threshold, (k - 1) as nat);
        let c = rebalance::after_steps(b, report, threshold, (k - 1) as nat);
        let d = rebalance::after_steps(b, report, threshold, k as nat);
        assert(rebalance::step_op(ns, rebalance::next_step(c, report, threshold)) == Some(
            ops[k - 1],
        ));
        let m = rebalance::next_step(c, report, threshold)->0;
        rebalance::lemma_move_evens_out(c, report, threshold, m);
        assert(ops[k - 1] == (RebalanceOp::Move {
            shard: m.shard,
            from: ns[m.from],
            to: ns[m.to],
        }));
        lemma_without(c.shards[m.from], m.shard, s);
        if i == m.to {
            let out = d.shards[i];
            assert(out == c.shards[i].push(m.shard));
            assert(out[c.shards[i].len() as int] == m.shard);
            if c.shards[i].contains(s) {
                let q = choose|q: int| 0 <= q < c.shards[i].len() && c.shards[i][q] == s;
                assert(out[q] == s);
            }
            if out.contains(s) && s != m.shard {
                let q = choose|q: int| 0 <= q < out.len() && out[q] == s;
                assert(c.shards[i][q] == s);
            }
        } else if i != m.from {
            assert(d.shards[i] == c.shards[i]);
        }
        if i != m.to {
            assert(ns[i] != ns[m.to]);
        }
        if i != m.from {
            assert(ns[i] != ns[m.from]);
        }
    }
}

/// Every move of a plan takes a shard from a node that holds it then to another of the
/// nodes that does not.
pub proof fn lemma_moves_are_possible(
    routes: Seq<RouteView>,
    report: Seq<(ShardId, u64)>,
    nodes: Seq<NodeId>,
    threshold: u64,
    ops: Seq<RebalanceOp>,
    k: int,
)
    requires
        rebalance::is_plan(
            ops,
            rebalance::names(nodes),
            rebalance::initial(routes, report, nodes),
            report,
            threshold,
        ),
        0 <= k < ops.len(),
    ensures
        ops[k] matches RebalanceOp::Move { shard, from, to } && nodes.contains(from)
            && nodes.contains(to) && from != to && holds(routes, ops, k, from, shard) && !holds(
            routes,
            ops,
            k,
            to,
            shard,
        ),
{
    let ns = rebalance::names(nodes);
    let b = rebalance::initial(routes, report, nodes);
    let c = rebalance::after_steps(b, report, threshold, k as nat);
    lemma_balance_keeps_its_size(b, report, threshold, k as nat);
    assert(rebalance::step_op(ns, rebalance::next_step(c, report, threshold)) == Some(ops[k]));
    let m = rebalance::next_step(c, report, threshold)->0;
    rebalance::lemma_move_evens_out(c, report, threshold, m);
    lemma_plan_tracks(routes, report, nodes, threshold, ops, k, m.from, m.shard);
    lemma_plan_tracks(routes, report, nodes, threshold, ops, k, m.to, m.shard);
    lemma_names_are_the_nodes(Seq::empty(), nodes, ns[m.from]);
    lemma_names_are_the_nodes(Seq::empty(), nodes, ns[m.to]);
    assert(ns.contains(ns[m.from]) && ns.contains(ns[m.to]));
}

/// The first move of a plan never goes to a node that is in a group of the shard.
pub proof fn lemma_first_move_leaves_the_group(
    routes: Seq<RouteView>,
    report: Seq<(ShardId, u64)>,
    nodes: Seq<NodeId>,
    threshold: u64,
    ops: Seq<RebalanceOp>,
    i: int,
)
    requires
        rebalance::is_plan(
            ops,
            rebalance::names(nodes),
            rebalance::initial(routes, report, nodes),
            report,
            threshold,
        ),
        ops.len() > 0,
        0 <= i < routes.len(),
    ensures
        ops[0] matches RebalanceOp::Move { shard, from, to } && (routes[i].shard == shard
            ==> !routes[i].group.contains(to)),
{
    lemma_moves_are_possible(routes, report, nodes, threshold, ops, 0);
}

/// Nodes that are given once each are counted in the order in which they are given.
pub proof fn lemma_names_keep_their_order(nodes: Seq<NodeId>)
    requires
        nodes.no_duplicates(),
    ensures
        rebalance::names(nodes) == nodes,
    decreases nodes.len(),
{
    if nodes.len() > 0 {
        let front = nodes.drop_last();
        assert forall|i: int, j: int|
            0 <= i < front.len() && 0 <= j < front.len() && i != j implies front[i] != front[j] by {
            assert(nodes[i] != nodes[j]);
        }
        lemma_names_keep_their_order(front);
        assert(!front.contains(nodes.last())) by {
            if front.contains(nodes.last()) {
                let i = choose|i: int| 0 <= i < front.len() && front[i] == nodes.last();
                assert(nodes[i] == nodes[nodes.len() - 1]);
            }
        }
        assert(front.push(nodes.last()) =~= nodes);
    } else {
        assert(rebalance::names(nodes) =~= nodes);
    }
}

proof fn lemma_first_extremes(loads: Seq<u64>, n: int, j: int)
    requires
        0 <= n <= loads.len(),
    ensures
        rebalance::least(loads, n) matches Some(m) ==> 0 <= m < n && (0 <= j < m ==> loads[j]
            > loads[m]),
        rebalance::most(loads, n) matches Some(m) ==> 0 <= m < n && (0 <= j < m ==> loads[j]
            < loads[m]),
    decreases n,
{
    if n > 0 {
        lemma_first_extremes(loads, n - 1, j);
        lemma_extremes(loads, n - 1);
    }
}

/// Of nodes with the most work a move takes the first, of nodes with the least it goes
/// to the first, and of the shards that would help it moves the first.
pub proof fn lemma_first_of_equals_is_moved(
    b: Balance,
    report: Seq<(ShardId, u64)>,
    threshold: u64,
    m: Step,
    j: int,
)
    requires
        b.loads.len() == b.shards.len(),
        rebalance::next_step(b, report, threshold) == Some(m),
    ensures
        0 <= j < m.from ==> b.loads[j] < b.loads[m.from],
        0 <= j < m.to ==> b.loads[j] > b.loads[m.to],
        exists|i: int|
            0 <= i < b.shards[m.from].len() && #[trigger] b.shards[m.from][i] == m.shard && (0 <= j
                < i ==> b.shards[m.to].contains(b.shards[m.from][j]) || {
                let gap = b.loads[m.from] - b.loads[m.to];
                let w = rebalance::weight(report, b.shards[m.from][j]);
                gap - 2 * w >= gap || 2 * w - gap >= gap
            }),
{
    lemma_first_extremes(b.loads, b.loads.len() as int, j);
    let i = rebalance::first_helpful(b, report, m.from, m.to, 0);
    assert(b.shards[m.from][i] == m.shard);
    lemma_first_helpful_from(b, report, m.from, m.to, 0, j);
}

proof fn lemma_first_helpful_from(
    b: Balance,
    report: Seq<(ShardId, u64)>,
    from: int,
    to: int,
    i: int,
    j: int,
)
    requires
        0 <= i <= b.shards[from].len(),
    ensures
        i <= rebalance::first_helpful(b, report, from, to, i) <= b.shards[from].len(),
        i <= j < rebalance::first_helpful(b, report, from, to, i) ==> !rebalance::helps(
            b,
            report,
            from,
            to,
            b.shards[from][j],
        ),
    decreases b.shards[from].len() - i,
{
    if i < b.shards[from].len() && !rebalance::helps(b, report, from, to, b.shards[from][i]) {
        lemma_first_helpful_from(b, report, from, to, i + 1, j);
    }
}

// ----------------------------------------------------------------------
// The work of nodes
// ----------------------------------------------------------------------
proof fn lemma_work_without(report: Seq<(ShardId, u64)>, shards: Seq<ShardId>, shard: ShardId)
    requires
        shards.no_duplicates(),
    ensures
        rebalance::shards_without(shards, shard).no_duplicates(),
        rebalance::work(report, rebalance::shards_without(shards, shard)) + (if shards.contains(
            shard,
        ) {
            rebalance::weight(report, shard) as nat
        } else {
            0
        }) == rebalance::work(report, shards),
    decreases shards.len(),
{
    if shards.len() > 0 {
        let less = shards.drop_last();
        let x = shards.last();
        lemma_work_without(report, less, shard);
        lemma_without(less, shard, x);
        let front = rebalance::shards_without(less, shard);
        assert(shards[shards.len() - 1] == x);
        if less.contains(shard) {
            let i = choose|i: int| 0 <= i < less.len() && less[i] == shard;
            assert(shards[i] == shard);
        }
        if less.contains(x) {
            let i = choose|i: int| 0 <= i < less.len() && less[i] == x;
            assert(shards[i] == shards[shards.len() - 1]);
        }
        if shards.contains(shard) && x != shard {
            let i = choose|i: int| 0 <= i < shards.len() && shards[i] == shard;
            assert(less[i] == shard);
        }
        if x != shard {
            let out = front.push(x);
            assert(out.drop_last() =~= front);
            assert forall|i: int, j: int|
                0 <= i < out.len() && 0 <= j < out.len() && i != j implies out[i] != out[j] by {
                if i == front.len() {
                    assert(front.contains(out[j]));
                } else if j == front.len() {
                    assert(front.contains(out[i]));
                }
            }
        }
    }
}

proof fn lemma_loads_are_work(
    routes: Seq<RouteView>,
    report: Seq<(ShardId, u64)>,
    nodes: Seq<NodeId>,
    threshold: u64,
    k: nat,
    i: int,
)
    requires
        rebalance::loads_fit(routes, report, nodes),
        forall|i: int, j: int|
            0 <= i < j < routes.len() ==> (#[trigger] routes[i]).shard != (
            #[trigger] routes[j]).shard,
        forall|i: int| 0 <= i < routes.len() ==> (#[trigger] routes[i]).group.no_duplicates(),
        0 <= i < rebalance::names(nodes).len(),
    ensures
        ({
            let c = rebalance::after_steps(
                rebalance::initial(routes, report, nodes),
                report,
                threshold,
                k,
            );
            c.shards[i].no_duplicates() && c.loads[i] == rebalance::work(report, c.shards[i])
        }),
    decreases k,
{
    let ns = rebalance::names(nodes);
    let b = rebalance::initial(routes, report, nodes);
    if k == 0 {
        lemma_shards_on_a_node_are_distinct(routes, ns[i]);
        assert(rebalance::work(report, rebalance::shards_on(routes, ns[i])) <= u64::MAX);
    } else {
        let c = rebalance::after_steps(b, report, threshold, (k - 1) as nat);
        lemma_loads_are_work(routes, report, nodes, threshold, (k - 1) as nat, i);
        lemma_balance_keeps_its_size(b, report, threshold, (k - 1) as nat);
        match rebalance::next_step(c, report, threshold) {
            Some(m) => {
                rebalance::lemma_move_evens_out(c, report, threshold, m);
                lemma_work_without(report, c.shards[i], m.shard);
                let out = c.shards[i].push(m.shard);
                assert(out.drop_last() =~= c.shards[i]);
                if i == m.to {
                    assert forall|x: int, y: int|
                        0 <= x < out.len() && 0 <= y < out.len() && x != y implies out[x]
                        != out[y] by {
                        if x == c.shards[i].len() {
                            assert(c.shards[i].contains(out[y]));
                        } else if y == c.shards[i].len() {
                            assert(c.shards[i].contains(out[x]));
                        }
                    }
                }
            },
            None => {},
        }
    }
}

/// When all moves of a plan have been made, some node has the most work and some node
/// the least, and either the gap between the two is within the threshold or no shard
/// that the one holds and the other does not would narrow it.
pub proof fn lemma_plan_goes_on_while_it_helps(
    routes: Seq<RouteView>,
    report: Seq<(ShardId, u64)>,
    nodes: Seq<NodeId>,
    threshold: u64,
    ops: Seq<RebalanceOp>,
) -> (r: (Balance, int, int))
    requires
        rebalance::is_plan(
            ops,
            rebalance::names(nodes),
            rebalance::initial(routes, report, nodes),
            report,
            threshold,
        ),
        rebalance::loads_fit(routes, report, nodes),
        forall|i: int, j: int|
            0 <= i < j < routes.len() ==> (#[trigger] routes[i]).shard != (
            #[trigger] routes[j]).shard,
        forall|i: int| 0 <= i < routes.len() ==> (#[trigger] routes[i]).group.no_duplicates(),
        nodes.len() > 0,
    ensures
        r.0.loads.len() == rebalance::names(nodes).len(),
        r.0.shards.len() == rebalance::names(nodes).len(),
        forall|i: int, s: ShardId|
            0 <= i < r.0.shards.len() ==> (#[trigger] r.0.shards[i].contains(s) <==> holds(
                routes,
                ops,
                ops.len() as int,
                rebalance::names(nodes)[i],
                s,
            )),
        forall|i: int|
            0 <= i < r.0.loads.len() ==> r.0.loads[i] == rebalance::work(
                report,
                #[trigger] r.0.shards[i],
            ) && r.0.shards[i].no_duplicates(),
        0 <= r.1 < r.0.loads.len(),
        0 <= r.2 < r.0.loads.len(),
        forall|i: int|
            0 <= i < r.0.loads.len() ==> r.0.loads[r.2] <= #[trigger] r.0.loads[i]
                <= r.0.loads[r.1],
        r.0.loads[r.1] - r.0.loads[r.2] <= threshold || forall|s: ShardId|
            (#[trigger] r.0.shards[r.1].contains(s)) && !r.0.shards[r.2].contains(s) ==> {
                let gap = r.0.loads[r.1] - r.0.loads[r.2];
                let w = rebalance::weight(report, s);
                gap - 2 * w >= gap || 2 * w - gap >= gap
            },
{
    let ns = rebalance::names(nodes);
    let b = rebalance::initial(routes, report, nodes);
    let c = rebalance::after_steps(b, report, threshold, ops.len());
    lemma_balance_keeps_its_size(b, report, threshold, ops.len());
    lemma_names_are_the_nodes(Seq::empty(), nodes, nodes[0]);
    assert(nodes.contains(nodes[0]));
    assert(ns.len() > 0);
    assert forall|i: int, s: ShardId| 0 <= i < c.shards.len() implies (
    #[trigger] c.shards[i].contains(s) <==> holds(
        routes,
        ops,
        ops.len() as int,
        ns[i],
        s,
    )) by {
        lemma_plan_tracks(routes, report, nodes, threshold, ops, ops.len() as int, i, s);
    }
    assert forall|i: int| 0 <= i < c.loads.len() implies c.loads[i] == rebalance::work(
        report,
        #[trigger] c.shards[i],
    ) && c.shards[i].no_duplicates() by {
        lemma_loads_are_work(routes, report, nodes, threshold, ops.len(), i);
    }
    let n = c.loads.len() as int;
    lemma_extremes(c.loads, n);
    match (rebalance::least(c.loads, n), rebalance::most(c.loads, n)) {
        (Some(to), Some(from)) => {
            if c.loads[from] - c.loads[to] > threshold {
                assert forall|s: ShardId|
                    (#[trigger] c.shards[from].contains(s)) && !c.shards[to].contains(s) implies ({
                    let gap = c.loads[from] - c.loads[to];
                    let w = rebalance::weight(report, s);
                    gap - 2 * w >= gap || 2 * w - gap >= gap
                }) by {
                    let q = choose|q: int| 0 <= q < c.shards[from].len() && c.shards[from][q] == s;
                    lemma_none_helps(c, report, from, to, 0, q);
                }
            }
            (c, from, to)
        },
        _ => (c, 0, 0),
    }
}

proof fn lemma_none_helps(
    b: Balance,
    report: Seq<(ShardId, u64)>,
    from: int,
    to: int,
    i: int,
    q: int,
)
    requires
        0 <= i <= q < b.shards[from].len(),
        rebalance::first_helpful(b, report, from, to, i) >= b.shards[from].len(),
    ensures
        !rebalance::helps(b, report, from, to, b.shards[from][q]),
    decreases q - i,
{
    if i < q {
        lemma_none_helps(b, report, from, to, i + 1, q);
    }
}

proof fn lemma_extremes(loads: Seq<u64>, n: int)
    requires
        0 <= n <= loads.len(),
    ensures
        rebalance::least(loads, n) matches Some(m) ==> 0 <= m < n && forall|j: int|
            0 <= j < n ==> loads[m] <= #[trigger] loads[j],
        rebalance::most(loads, n) matches Some(m) ==> 0 <= m < n && forall|j: int|
            0 <= j < n ==> loads[m] >= #[trigger] loads[j],
        rebalance::least(loads, n) is None ==> forall|j: int|
            0 <= j < n ==> #[trigger] loads[j] == u64::MAX,
        rebalance::most(loads, n) is None ==> forall|j: int| 0 <= j < n ==> #[trigger] loads[j] == 0,
    decreases n,
{
    if n > 0 {
        lemma_extremes(loads, n - 1);
    }
}

} // verus!
