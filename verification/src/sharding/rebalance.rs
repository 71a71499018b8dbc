//! Evening out the work of nodes by moving shards.
use crate::consensus::messages::NodeId;
use crate::sharding::routing;
use crate::sharding::routing::{RangeRoute, RebalanceOp, RouteView, ShardId};
use vstd::prelude::*;

verus! {

/// The names behind those that are there, each once.
pub open spec fn names_behind(have: Seq<NodeId>, more: Seq<NodeId>) -> Seq<NodeId>
    decreases more.len(),
{
    if more.len() == 0 {
        have
    } else {
        let front = names_behind(have, more.drop_last());
        if front.contains(more.last()) {
            front
        } else {
            front.push(more.last())
        }
    }
}

/// The nodes, each once, in the order in which they first appear.
pub open spec fn names(nodes: Seq<NodeId>) -> Seq<NodeId> {
    names_behind(Seq::empty(), nodes)
}

/// The work of a shard: what the report says last, or one.
pub open spec fn weight(report: Seq<(ShardId, u64)>, shard: ShardId) -> u64
    decreases report.len(),
{
    if report.len() == 0 {
        1
    } else if report.last().0 == shard {
        report.last().1
    } else {
        weight(report.drop_last(), shard)
    }
}

/// The shard once for each time that the node is in the group.
pub open spec fn shard_in_group(group: Seq<NodeId>, node: NodeId, shard: ShardId) -> Seq<ShardId>
    decreases group.len(),
{
    if group.len() == 0 {
        Seq::empty()
    } else {
        let front = shard_in_group(group.drop_last(), node, shard);
        if group.last() == node {
            front.push(shard)
        } else {
            front
        }
    }
}

/// The shards on a node, in the order of their routes.
pub open spec fn shards_on(routes: Seq<RouteView>, node: NodeId) -> Seq<ShardId>
    decreases routes.len(),
{
    if routes.len() == 0 {
        Seq::empty()
    } else {
        let r = routes.last();
        shards_on(routes.drop_last(), node) + shard_in_group(r.group, node, r.shard)
    }
}

/// The work of shards together.
pub open spec fn work(report: Seq<(ShardId, u64)>, shards: Seq<ShardId>) -> nat
    decreases shards.len(),
{
    if shards.len() == 0 {
        0
    } else {
        work(report, shards.drop_last()) + weight(report, shards.last()) as nat
    }
}

/// Which shards each node has, and how much work that is.
#[verifier::ext_equal]
pub struct Balance {
    pub loads: Seq<u64>,
    pub shards: Seq<Seq<ShardId>>,
}

/// How things stand before any move.
pub open spec fn initial(
    routes: Seq<RouteView>,
    report: Seq<(ShardId, u64)>,
    nodes: Seq<NodeId>,
) -> Balance {
    let ns = names(nodes);
    Balance {
        loads: ns.map_values(|n: NodeId| work(report, shards_on(routes, n)) as u64),
        shards: ns.map_values(|n: NodeId| shards_on(routes, n)),
    }
}

/// The work of each node can be counted.
pub open spec fn loads_fit(
    routes: Seq<RouteView>,
    report: Seq<(ShardId, u64)>,
    nodes: Seq<NodeId>,
) -> bool {
    forall|i: int|
        0 <= i < names(nodes).len() ==> #[trigger] work(report, shards_on(routes, names(nodes)[i]))
            <= u64::MAX
}

/// The first place among the first `n` with the least work; a place where the
/// work is as large as can be does not count.
pub open spec fn least(loads: Seq<u64>, n: int) -> Option<int>
    decreases n,
{
    if n <= 0 {
        None
    } else {
        match least(loads, n - 1) {
            Some(m) => if loads[n - 1] < loads[m] {
                Some(n - 1)
            } else {
                Some(m)
            },
            None => if loads[n - 1] < u64::MAX {
                Some(n - 1)
            } else {
                None
            },
        }
    }
}

/// The first place among the first `n` with the most work; a place without
/// work does not count.
pub open spec fn most(loads: Seq<u64>, n: int) -> Option<int>
    decreases n,
{
    if n <= 0 {
        None
    } else {
        match most(loads, n - 1) {
            Some(m) => if loads[n - 1] > loads[m] {
                Some(n - 1)
            } else {
                Some(m)
            },
            None => if loads[n - 1] > 0 {
                Some(n - 1)
            } else {
                None
            },
        }
    }
}

/// The distance of two numbers.
pub open spec fn distance(a: int, b: int) -> int {
    if a < b {
        b - a
    } else {
        a - b
    }
}

/// Moving the shard narrows the gap between the two nodes.
pub open spec fn helps(
    b: Balance,
    report: Seq<(ShardId, u64)>,
    from: int,
    to: int,
    shard: ShardId,
) -> bool {
    let w = weight(report, shard);
    &&& !b.shards[to].contains(shard)
    &&& distance(b.loads[from] - w, b.loads[to] + w) < b.loads[from] - b.loads[to]
}

/// The first place from `i` on of a shard whose move helps, or the number of
/// shards.
pub open spec fn first_helpful(
    b: Balance,
    report: Seq<(ShardId, u64)>,
    from: int,
    to: int,
    i: int,
) -> int
    decreases b.shards[from].len() - i,
{
    if i >= b.shards[from].len() || helps(b, report, from, to, b.shards[from][i]) {
        i
    } else {
        first_helpful(b, report, from, to, i + 1)
    }
}

/// A move: from which node, to which, and which shard.
pub struct Step {
    pub from: int,
    pub to: int,
    pub shard: ShardId,
}

/// The next move, if there is one to be made.
pub open spec fn next_step(b: Balance, report: Seq<(ShardId, u64)>, threshold: u64) -> Option<
    Step,
> {
    let n = b.loads.len() as int;
    match (least(b.loads, n), most(b.loads, n)) {
        (Some(to), Some(from)) => if b.loads[from] - b.loads[to] <= threshold {
            None
        } else {
            let i = first_helpful(b, report, from, to, 0);
            if i < b.shards[from].len() {
                Some(Step { from, to, shard: b.shards[from][i] })
            } else {
                None
            }
        },
        _ => None,
    }
}

/// The shards but this one.
pub open spec fn shards_without(shards: Seq<ShardId>, shard: ShardId) -> Seq<ShardId>
    decreases shards.len(),
{
    if shards.len() == 0 {
        Seq::empty()
    } else {
        let front = shards_without(shards.drop_last(), shard);
        if shards.last() == shard {
            front
        } else {
            front.push(shards.last())
        }
    }
}

/// How things stand after a move.
pub open spec fn moved(b: Balance, report: Seq<(ShardId, u64)>, m: Step) -> Balance {
    let w = weight(report, m.shard);
    Balance {
        loads: b.loads.update(m.from, (b.loads[m.from] - w) as u64).update(
            m.to,
            (b.loads[m.to] + w) as u64,
        ),
        shards: b.shards.update(m.from, shards_without(b.shards[m.from], m.shard)).update(
            m.to,
            b.shards[m.to].push(m.shard),
        ),
    }
}

/// How things stand after `n` moves, as long as there are moves to be made.
pub open spec fn after_steps(
    b: Balance,
    report: Seq<(ShardId, u64)>,
    threshold: u64,
    n: nat,
) -> Balance
    decreases n,
{
    if n == 0 {
        b
    } else {
        let s = after_steps(b, report, threshold, (n - 1) as nat);
        match next_step(s, report, threshold) {
            Some(m) => moved(s, report, m),
            None => s,
        }
    }
}

/// The operations are the moves that are to be made one after the other, and
/// behind them there is none to be made.
pub open spec fn is_plan(
    ops: Seq<RebalanceOp>,
    ns: Seq<NodeId>,
    b: Balance,
    report: Seq<(ShardId, u64)>,
    threshold: u64,
) -> bool {
    &&& forall|i: int|
        0 <= i < ops.len() ==> step_op(
            ns,
            next_step(after_steps(b, report, threshold, i as nat), report, threshold),
        ) == Some(#[trigger] ops[i])
    &&& next_step(after_steps(b, report, threshold, ops.len()), report, threshold) is None
}

/// A move as an operation on nodes.
pub open spec fn step_op(ns: Seq<NodeId>, m: Option<Step>) -> Option<RebalanceOp> {
    match m {
        Some(m) => Some(RebalanceOp::Move { shard: m.shard, from: ns[m.from], to: ns[m.to] }),
        None => None,
    }
}

// ----------------------------------------------------------------------
// Why it ends
// ----------------------------------------------------------------------
/// The sum of the squares of the loads.
pub open spec fn squares(loads: Seq<u64>) -> nat
    decreases loads.len(),
{
    if loads.len() == 0 {
        0
    } else {
        squares(loads.drop_last()) + (loads.last() as nat) * (loads.last() as nat)
    }
}

/// The sum of the loads.
pub open spec fn sum(loads: Seq<u64>) -> nat
    decreases loads.len(),
{
    if loads.len() == 0 {
        0
    } else {
        sum(loads.drop_last()) + loads.last() as nat
    }
}

proof fn lemma_update(loads: Seq<u64>, i: int, v: u64)
    requires
        0 <= i < loads.len(),
    ensures
        squares(loads.update(i, v)) + (loads[i] as nat) * (loads[i] as nat) == squares(loads) + (
        v as nat) * (v as nat),
        sum(loads.update(i, v)) + loads[i] == sum(loads) + v,
    decreases loads.len(),
{
    let n = loads.len() - 1;
    let now = loads.update(i, v);
    if i == n {
        assert(now.drop_last() =~= loads.drop_last());
    } else {
        lemma_update(loads.drop_last(), i, v);
        assert(now.drop_last() =~= loads.drop_last().update(i, v));
        assert(now.last() == loads.last());
    }
}

proof fn lemma_least(loads: Seq<u64>, n: int)
    requires
        0 <= n <= loads.len(),
    ensures
        least(loads, n) matches Some(m) ==> 0 <= m < n,
        most(loads, n) matches Some(m) ==> 0 <= m < n,
        least(loads, n) matches Some(m) ==> forall|j: int|
            0 <= j < n ==> loads[m] <= #[trigger] loads[j],
        most(loads, n) matches Some(m) ==> forall|j: int|
            0 <= j < n ==> loads[m] >= #[trigger] loads[j],
    decreases n,
{
    if n > 0 {
        lemma_least(loads, n - 1);
        if least(loads, n - 1) is None {
            lemma_no_least(loads, n - 1);
        }
        if most(loads, n - 1) is None {
            lemma_no_least(loads, n - 1);
        }
    }
}

proof fn lemma_no_least(loads: Seq<u64>, n: int)
    requires
        0 <= n <= loads.len(),
    ensures
        least(loads, n) is None ==> forall|j: int| 0 <= j < n ==> #[trigger] loads[j] == u64::MAX,
        most(loads, n) is None ==> forall|j: int| 0 <= j < n ==> #[trigger] loads[j] == 0,
    decreases n,
{
    if n > 0 {
        lemma_no_least(loads, n - 1);
    }
}

proof fn lemma_first_helpful(
    b: Balance,
    report: Seq<(ShardId, u64)>,
    from: int,
    to: int,
    i: int,
)
    requires
        0 <= i <= b.shards[from].len(),
    ensures
        i <= first_helpful(b, report, from, to, i) <= b.shards[from].len(),
        first_helpful(b, report, from, to, i) < b.shards[from].len() ==> helps(
            b,
            report,
            from,
            to,
            b.shards[from][first_helpful(b, report, from, to, i)],
        ),
    decreases b.shards[from].len() - i,
{
    if i < b.shards[from].len() && !helps(b, report, from, to, b.shards[from][i]) {
        lemma_first_helpful(b, report, from, to, i + 1);
    }
}

/// Every move goes from a node with the most work to one with the least, and
/// takes a shard that the other does not have; it leaves the gap between the
/// two strictly smaller and the work in total the same, and makes the loads
/// more even: the sum of their squares falls.
pub proof fn lemma_move_evens_out(b: Balance, report: Seq<(ShardId, u64)>, threshold: u64, m: Step)
    requires
        b.loads.len() == b.shards.len(),
        next_step(b, report, threshold) == Some(m),
    ensures
        0 <= m.from < b.loads.len(),
        0 <= m.to < b.loads.len(),
        m.from != m.to,
        forall|j: int|
            0 <= j < b.loads.len() ==> b.loads[m.to] <= #[trigger] b.loads[j] <= b.loads[m.from],
        b.shards[m.from].contains(m.shard),
        !b.shards[m.to].contains(m.shard),
        b.loads[m.from] - b.loads[m.to] > threshold,
        moved(b, report, m).loads[m.from] == b.loads[m.from] - weight(report, m.shard),
        moved(b, report, m).loads[m.to] == b.loads[m.to] + weight(report, m.shard),
        distance(
            moved(b, report, m).loads[m.from] as int,
            moved(b, report, m).loads[m.to] as int,
        ) < b.loads[m.from] - b.loads[m.to],
        sum(moved(b, report, m).loads) == sum(b.loads),
        squares(moved(b, report, m).loads) < squares(b.loads),
{
    let n = b.loads.len() as int;
    lemma_least(b.loads, n);
    let i = first_helpful(b, report, m.from, m.to, 0);
    lemma_first_helpful(b, report, m.from, m.to, 0);
    assert(helps(b, report, m.from, m.to, m.shard));
    assert(b.shards[m.from][i] == m.shard);
    let x = b.loads[m.from];
    let y = b.loads[m.to];
    let w = weight(report, m.shard);
    assert(0 < w < x - y);
    let x1 = (x - w) as u64;
    let y1 = (y + w) as u64;
    let mid = b.loads.update(m.from, x1);
    lemma_update(b.loads, m.from, x1);
    lemma_update(mid, m.to, y1);
    let (xi, yi, wi) = (x as int, y as int, w as int);
    assert((xi - wi) * (xi - wi) + (yi + wi) * (yi + wi) < xi * xi + yi * yi) by (nonlinear_arith)
        requires
            0 < wi < xi - yi,
            yi >= 0,
    ;
}

// ----------------------------------------------------------------------
// The plan
// ----------------------------------------------------------------------
/// Adds names that are not there.
pub fn add_names(have: &mut Vec<NodeId>, more: &[NodeId])
    ensures
        final(have)@ == names_behind(old(have)@, more@),
{
    let ghost start = have@;
    let mut i: usize = 0;
    assert(more@.take(0) =~= Seq::empty());
    while i < more.len()
        invariant
            i <= more@.len(),
            have@ == names_behind(start, more@.take(i as int)),
        decreases more@.len() - i,
    {
        proof {
            assert(more@.take(i + 1).drop_last() =~= more@.take(i as int));
            assert(more@.take(i + 1).last() == more@[i as int]);
        }
        if !has_node(have.as_slice(), more[i]) {
            have.push(more[i]);
        }
        i = i + 1;
    }
    assert(more@.take(i as int) =~= more@);
}

fn has_node(v: &[NodeId], x: NodeId) -> (r: bool)
    ensures
        r == v@.contains(x),
{
    let mut i: usize = 0;
    while i < v.len()
        invariant
            i <= v@.len(),
            forall|k: int| 0 <= k < i ==> v@[k] != x,
        decreases v@.len() - i,
    {
        if v[i] == x {
            return true;
        }
        i = i + 1;
    }
    false
}

fn has_shard(v: &[ShardId], x: ShardId) -> (r: bool)
    ensures
        r == v@.contains(x),
{
    let mut i: usize = 0;
    while i < v.len()
        invariant
            i <= v@.len(),
            forall|k: int| 0 <= k < i ==> v@[k] != x,
        decreases v@.len() - i,
    {
        if v[i] == x {
            return true;
        }
        i = i + 1;
    }
    false
}

/// The work of a shard.
pub fn weight_of(report: &[(ShardId, u64)], shard: ShardId) -> (r: u64)
    ensures
        r == weight(report@, shard),
{
    let mut i: usize = report.len();
    assert(report@.take(i as int) =~= report@);
    while i > 0
        invariant
            i <= report@.len(),
            weight(report@, shard) == weight(report@.take(i as int), shard),
        decreases i,
    {
        proof {
            assert(report@.take(i as int).last() == report@[i - 1]);
            assert(report@.take(i as int).drop_last() =~= report@.take(i - 1));
        }
        if report[i - 1].0 == shard {
            return report[i - 1].1;
        }
        i = i - 1;
    }
    1
}

/// The shards on a node.
fn find_shards(routes: &[RangeRoute], node: NodeId) -> (r: Vec<ShardId>)
    ensures
        r@ == shards_on(routing::route_views(routes@), node),
{
    let ghost all = routing::route_views(routes@);
    let mut r: Vec<ShardId> = Vec::new();
    let mut i: usize = 0;
    assert(all.take(0) =~= Seq::empty());
    while i < routes.len()
        invariant
            i <= routes@.len(),
            all == routing::route_views(routes@),
            r@ == shards_on(all.take(i as int), node),
        decreases routes@.len() - i,
    {
        let group = &routes[i].raft_group;
        let shard = routes[i].shard_id;
        let ghost before = r@;
        let mut j: usize = 0;
        proof {
            assert(all.take(i + 1).drop_last() =~= all.take(i as int));
            assert(all.take(i + 1).last() == routes@[i as int]@);
            assert(group@.take(0) =~= Seq::empty());
            assert(before + Seq::<ShardId>::empty() =~= before);
        }
        while j < group.len()
            invariant
                j <= group@.len(),
                r@ == before + shard_in_group(group@.take(j as int), node, shard),
            decreases group@.len() - j,
        {
            proof {
                assert(group@.take(j + 1).drop_last() =~= group@.take(j as int));
                assert(group@.take(j + 1).last() == group@[j as int]);
            }
            if group[j] == node {
                r.push(shard);
            }
            j = j + 1;
        }
        assert(group@.take(j as int) =~= group@);
        i = i + 1;
    }
    assert(all.take(i as int) =~= all);
    r
}

proof fn lemma_work_grows(report: Seq<(ShardId, u64)>, shards: Seq<ShardId>, i: int)
    requires
        0 <= i <= shards.len(),
    ensures
        work(report, shards.take(i)) <= work(report, shards),
    decreases shards.len(),
{
    if i < shards.len() {
        lemma_work_grows(report, shards.drop_last(), i);
        assert(shards.drop_last().take(i) =~= shards.take(i));
    } else {
        assert(shards.take(i) =~= shards);
    }
}

/// The work of shards together.
fn work_of(report: &[(ShardId, u64)], shards: &[ShardId]) -> (r: u64)
    requires
        work(report@, shards@) <= u64::MAX,
    ensures
        r == work(report@, shards@),
{
    let mut total: u64 = 0;
    let mut i: usize = 0;
    assert(shards@.take(0) =~= Seq::empty());
    while i < shards.len()
        invariant
            i <= shards@.len(),
            work(report@, shards@) <= u64::MAX,
            total == work(report@, shards@.take(i as int)),
        decreases shards@.len() - i,
    {
        proof {
            assert(shards@.take(i + 1).drop_last() =~= shards@.take(i as int));
            assert(shards@.take(i + 1).last() == shards@[i as int]);
            lemma_work_grows(report@, shards@, i + 1);
        }
        total = total + weight_of(report, shards[i]);
        i = i + 1;
    }
    assert(shards@.take(i as int) =~= shards@);
    total
}

pub open spec fn shard_lists(v: Seq<Vec<ShardId>>) -> Seq<Seq<ShardId>> {
    v.map_values(|l: Vec<ShardId>| l@)
}

/// The place with the least work.
fn find_least(loads: &[u64]) -> (r: Option<usize>)
    ensures
        least(loads@, loads@.len() as int) == (match r {
            Some(m) => Some(m as int),
            None => None,
        }),
{
    let mut r: Option<usize> = None;
    let mut i: usize = 0;
    while i < loads.len()
        invariant
            i <= loads@.len(),
            r matches Some(m) ==> m < i,
            least(loads@, i as int) == (match r {
                Some(m) => Some(m as int),
                None => None,
            }),
        decreases loads@.len() - i,
    {
        let better: bool = match r {
            Some(m) => loads[i] < loads[m],
            None => loads[i] < u64::MAX,
        };
        if better {
            r = Some(i);
        }
        i = i + 1;
    }
    r
}

/// The place with the most work.
fn find_most(loads: &[u64]) -> (r: Option<usize>)
    ensures
        most(loads@, loads@.len() as int) == (match r {
            Some(m) => Some(m as int),
            None => None,
        }),
{
    let mut r: Option<usize> = None;
    let mut i: usize = 0;
    while i < loads.len()
        invariant
            i <= loads@.len(),
            r matches Some(m) ==> m < i,
            most(loads@, i as int) == (match r {
                Some(m) => Some(m as int),
                None => None,
            }),
        decreases loads@.len() - i,
    {
        let better: bool = match r {
            Some(m) => loads[i] > loads[m],
            None => loads[i] > 0,
        };
        if better {
            r = Some(i);
        }
        i = i + 1;
    }
    r
}

/// The shards but this one.
fn drop_shard(v: &[ShardId], shard: ShardId) -> (r: Vec<ShardId>)
    ensures
        r@ == shards_without(v@, shard),
{
    let mut r: Vec<ShardId> = Vec::new();
    let mut i: usize = 0;
    assert(v@.take(0) =~= Seq::empty());
    while i < v.len()
        invariant
            i <= v@.len(),
            r@ == shards_without(v@.take(i as int), shard),
        decreases v@.len() - i,
    {
        proof {
            assert(v@.take(i + 1).drop_last() =~= v@.take(i as int));
            assert(v@.take(i + 1).last() == v@[i as int]);
        }
        if v[i] != shard {
            r.push(v[i]);
        }
        i = i + 1;
    }
    assert(v@.take(i as int) =~= v@);
    r
}

/// The next move, if there is one to be made.
fn find_step(
    loads: &[u64],
    shards: &[Vec<ShardId>],
    report: &[(ShardId, u64)],
    threshold: u64,
) -> (r: Option<(usize, usize, ShardId)>)
    requires
        loads@.len() == shards@.len(),
    ensures
        next_step(
            Balance { loads: loads@, shards: shard_lists(shards@) },
            report@,
            threshold,
        ) == (match r {
            Some((from, to, shard)) => Some(Step { from: from as int, to: to as int, shard }),
            None => None,
        }),
{
    let ghost b = Balance { loads: loads@, shards: shard_lists(shards@) };
    proof {
        lemma_least(loads@, loads@.len() as int);
    }
    let to: usize = match find_least(loads) {
        Some(m) => m,
        None => return None,
    };
    let from: usize = match find_most(loads) {
        Some(m) => m,
        None => return None,
    };
    let gap: u64 = loads[from] - loads[to];
    if gap <= threshold {
        return None;
    }
    let held = &shards[from];
    let mut i: usize = 0;
    while i < held.len()
        invariant
            i <= held@.len(),
            loads@.len() == shards@.len(),
            from < loads@.len(),
            to < loads@.len(),
            held == &shards@[from as int],
            b == (Balance { loads: loads@, shards: shard_lists(shards@) }),
            gap == loads@[from as int] - loads@[to as int],
            gap > threshold,
            least(loads@, loads@.len() as int) == Some(to as int),
            most(loads@, loads@.len() as int) == Some(from as int),
            first_helpful(b, report@, from as int, to as int, 0) == first_helpful(
                b,
                report@,
                from as int,
                to as int,
                i as int,
            ),
        decreases held@.len() - i,
    {
        let s = held[i];
        assert(b.shards[from as int][i as int] == s);
        let w: u64 = weight_of(report, s);
        assert(b.shards[to as int] == shards@[to as int]@);
        if !has_shard(shards[to].as_slice(), s) && w > 0 && w < gap {
            assert(helps(b, report@, from as int, to as int, s));
            return Some((from, to, s));
        }
        assert(!helps(b, report@, from as int, to as int, s));
        i = i + 1;
    }
    None
}

/// The moves that even out the work.
pub fn plan(
    routes: &[RangeRoute],
    report: &[(ShardId, u64)],
    nodes: &[NodeId],
    threshold: u64,
) -> (r: Vec<RebalanceOp>)
    requires
        loads_fit(routing::route_views(routes@), report@, nodes@),
    ensures
        is_plan(
            r@,
            names(nodes@),
            initial(routing::route_views(routes@), report@, nodes@),
            report@,
            threshold,
        ),
{
    let ghost all = routing::route_views(routes@);
    let ghost start = initial(all, report@, nodes@);
    let mut ns: Vec<NodeId> = Vec::new();
    add_names(&mut ns, nodes);
    let mut loads: Vec<u64> = Vec::new();
    let mut shards: Vec<Vec<ShardId>> = Vec::new();
    let mut i: usize = 0;
    while i < ns.len()
        invariant
            i <= ns@.len(),
            ns@ == names(nodes@),
            all == routing::route_views(routes@),
            loads_fit(all, report@, nodes@),
            loads@.len() == i,
            shards@.len() == i,
            forall|k: int|
                0 <= k < i ==> #[trigger] loads@[k] == work(
                    report@,
                    shards_on(all, ns@[k]),
                ),
            forall|k: int| 0 <= k < i ==> (#[trigger] shards@[k])@ == shards_on(all, ns@[k]),
        decreases ns@.len() - i,
    {
        let held = find_shards(routes, ns[i]);
        assert(work(report@, shards_on(all, names(nodes@)[i as int])) <= u64::MAX);
        loads.push(work_of(report, held.as_slice()));
        shards.push(held);
        i = i + 1;
    }
    proof {
        assert(loads@ =~= start.loads);
        assert(shard_lists(shards@) =~= start.shards);
    }
    let mut ops: Vec<RebalanceOp> = Vec::new();
    let mut next: Option<(usize, usize, ShardId)> = find_step(
        loads.as_slice(),
        shards.as_slice(),
        report,
        threshold,
    );
    while next.is_some()
        invariant
            ns@ == names(nodes@),
            ns@.len() == loads@.len(),
            loads@.len() == shards@.len(),
            after_steps(start, report@, threshold, ops@.len()) == (Balance {
                loads: loads@,
                shards: shard_lists(shards@),
            }),
            next_step(
                Balance { loads: loads@, shards: shard_lists(shards@) },
                report@,
                threshold,
            ) == (match next {
                Some((from, to, shard)) => Some(Step { from: from as int, to: to as int, shard }),
                None => None,
            }),
            forall|k: int|
                0 <= k < ops@.len() ==> step_op(
                    ns@,
                    next_step(after_steps(start, report@, threshold, k as nat), report@, threshold),
                ) == Some(#[trigger] ops@[k]),
        decreases squares(loads@),
    {
        let (from, to, shard) = next.unwrap();
        let ghost b = Balance { loads: loads@, shards: shard_lists(shards@) };
        let ghost m = Step { from: from as int, to: to as int, shard };
        proof {
            lemma_move_evens_out(b, report@, threshold, m);
        }
        let w: u64 = weight_of(report, shard);
        let less: u64 = loads[from] - w;
        let more: u64 = loads[to] + w;
        let left = drop_shard(shards[from].as_slice(), shard);
        loads.set(from, less);
        loads.set(to, more);
        shards.set(from, left);
        shards[to].push(shard);
        ops.push(RebalanceOp::Move { shard, from: ns[from], to: ns[to] });
        proof {
            let after = moved(b, report@, m);
            assert(loads@ =~= after.loads);
            assert(shard_lists(shards@) =~= after.shards);
        }
        next = find_step(loads.as_slice(), shards.as_slice(), report, threshold);
    }
    ops
}

} // verus!
