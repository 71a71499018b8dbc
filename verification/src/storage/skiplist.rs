//! A skip list of versions in key order.
use crate::bytes;
use crate::random;
use crate::storage::key;
use crate::storage::key::{KeyView, MemKey, Version};
use vstd::prelude::*;

verus! {

struct Node {
    key: MemKey,
    value: Option<Vec<u8>>,
    next: Vec<Option<usize>>,
}

/// Versions in key order, on up to 32 levels of linked lists: level 0 links
/// all of them, each level above skips some.
pub struct SkipList {
    head: Vec<Option<usize>>,
    nodes: Vec<Node>,
    max_height: usize,
    levels: Ghost<Seq<Seq<int>>>,
}

/// The nodes of one level that come before `key`.
spec fn rank(nodes: Seq<Node>, list: Seq<int>, key: KeyView) -> int
    decreases list.len(),
{
    if list.len() == 0 || !key::key_lt(nodes[list[0]].key@, key) {
        0
    } else {
        1 + rank(nodes, list.drop_first(), key)
    }
}

/// The link to the first node of a list.
spec fn first_of(list: Seq<int>) -> Option<usize> {
    if list.len() == 0 {
        None
    } else {
        Some(list[0] as usize)
    }
}

/// The link behind place `p` of a list.
spec fn after(list: Seq<int>, p: int) -> Option<usize> {
    if p + 1 < list.len() {
        Some(list[p + 1] as usize)
    } else {
        None
    }
}

/// The members of a list are nodes that reach level `l`, in key order, each
/// once.
spec fn list_ok(nodes: Seq<Node>, list: Seq<int>, l: int) -> bool {
    &&& forall|p: int|
        0 <= p < list.len() ==> 0 <= #[trigger] list[p] < nodes.len() && nodes[list[p]].next@.len()
            > l
    &&& forall|p: int, q: int|
        0 <= p < q < list.len() ==> !key::key_lt(
            nodes[#[trigger] list[q]].key@,
            nodes[#[trigger] list[p]].key@,
        )
    &&& forall|p: int, q: int| 0 <= p < q < list.len() ==> #[trigger] list[p] != #[trigger] list[q]
    &&& forall|n: int|
        0 <= n < nodes.len() && (#[trigger] nodes[n]).next@.len() > l ==> list.contains(n)
}

/// The links of level `l` are those of the list.
spec fn links_ok(head: Seq<Option<usize>>, nodes: Seq<Node>, list: Seq<int>, l: int) -> bool {
    &&& head[l] == first_of(list)
    &&& forall|p: int|
        0 <= p < list.len() ==> nodes[#[trigger] list[p]].next@[l] == after(list, p)
}

spec fn node_version(n: Node) -> Version {
    Version { key: n.key@, value: bytes::value_view(n.value) }
}

impl SkipList {
    /// The lists are what the links say, and every node is on level 0.
    pub closed spec fn wf(&self) -> bool {
        &&& self.head@.len() == 32
        &&& self.levels@.len() == 32
        &&& 1 <= self.max_height <= 32
        &&& forall|n: int|
            0 <= n < self.nodes@.len() ==> 1 <= (#[trigger] self.nodes@[n]).next@.len()
                <= self.max_height
        &&& forall|l: int|
            0 <= l < 32 ==> list_ok(self.nodes@, #[trigger] self.levels@[l], l) && links_ok(
                self.head@,
                self.nodes@,
                self.levels@[l],
                l,
            )
    }

    /// The nodes in key order.
    pub closed spec fn order(&self) -> Seq<int> {
        self.levels@[0]
    }
}

impl View for SkipList {
    type V = Seq<Version>;

    /// The versions in key order.
    closed spec fn view(&self) -> Seq<Version> {
        self.levels@[0].map_values(|n: int| node_version(self.nodes@[n]))
    }
}

proof fn lemma_rank(nodes: Seq<Node>, list: Seq<int>, key: KeyView)
    ensures
        0 <= rank(nodes, list, key) <= list.len(),
        forall|p: int|
            0 <= p < rank(nodes, list, key) ==> key::key_lt(
                nodes[#[trigger] list[p]].key@,
                key,
            ),
        rank(nodes, list, key) < list.len() ==> !key::key_lt(
            nodes[list[rank(nodes, list, key)]].key@,
            key,
        ),
    decreases list.len(),
{
    if list.len() > 0 && key::key_lt(nodes[list[0]].key@, key) {
        let rest = list.drop_first();
        lemma_rank(nodes, rest, key);
        assert forall|p: int| 0 <= p < rank(nodes, list, key) implies key::key_lt(
            nodes[#[trigger] list[p]].key@,
            key,
        ) by {
            if p > 0 {
                assert(rest[p - 1] == list[p]);
            }
        }
    }
}

/// In a sorted list everything behind the rank is not before the key.
proof fn lemma_rank_rest(nodes: Seq<Node>, list: Seq<int>, l: int, key: KeyView)
    requires
        list_ok(nodes, list, l),
    ensures
        forall|p: int|
            rank(nodes, list, key) <= p < list.len() ==> !key::key_lt(
                nodes[#[trigger] list[p]].key@,
                key,
            ),
{
    lemma_rank(nodes, list, key);
    let r = rank(nodes, list, key);
    assert forall|p: int| r <= p < list.len() implies !key::key_lt(
        nodes[#[trigger] list[p]].key@,
        key,
    ) by {
        if r < p {
            key::lemma_key_ge_transitive(key, nodes[list[r]].key@, nodes[list[p]].key@);
        }
    }
}

/// A node in front of the rank is the place `p` of the list.
spec fn at_place(list: Seq<int>, curr: Option<usize>, p: int) -> bool {
    match curr {
        None => p == -1,
        Some(n) => 0 <= p < list.len() && list[p] == n,
    }
}

impl SkipList {
    /// An empty list.
    pub fn new() -> (r: Self)
        ensures
            r.wf(),
            r@ == Seq::<Version>::empty(),
            r.order() == Seq::<int>::empty(),
    {
        let mut head: Vec<Option<usize>> = Vec::new();
        let mut i: usize = 0;
        while i < 32
            invariant
                i <= 32,
                head@.len() == i,
                forall|j: int| 0 <= j < i ==> #[trigger] head@[j] == None::<usize>,
            decreases 32 - i,
        {
            head.push(None);
            i = i + 1;
        }
        let r = SkipList {
            head,
            nodes: Vec::new(),
            max_height: 1,
            levels: Ghost(Seq::new(32, |l: int| Seq::<int>::empty())),
        };
        assert(r@ =~= Seq::<Version>::empty());
        r
    }

    /// The last node of level `level` that comes before `key`, starting from
    /// one that is known to.
    fn walk(&self, level: usize, start: Option<usize>, key: &MemKey) -> (r: Option<usize>)
        requires
            self.wf(),
            level < 32,
            start matches Some(n) ==> n < self.nodes@.len() && self.nodes@[n as int].next@.len()
                > level && key::key_lt(self.nodes@[n as int].key@, key@),
        ensures
            at_place(
                self.levels@[level as int],
                r,
                rank(self.nodes@, self.levels@[level as int], key@) - 1,
            ),
            r matches Some(n) ==> n < self.nodes@.len() && self.nodes@[n as int].next@.len()
                > level && key::key_lt(self.nodes@[n as int].key@, key@),
    {
        let count: usize = self.nodes.len();
        let ghost list = self.levels@[level as int];
        let ghost target = rank(self.nodes@, list, key@);
        let mut curr: Option<usize> = start;
        let ghost mut p: int = match start {
            None => -1,
            Some(n) => choose|p: int| 0 <= p < list.len() && list[p] == n,
        };
        proof {
            lemma_rank(self.nodes@, list, key@);
            lemma_rank_rest(self.nodes@, list, level as int, key@);
            if let Some(n) = start {
                assert(list.contains(n as int));
                assert(list[p] == n);
            }
        }
        loop
            invariant_except_break
                at_place(list, curr, p),
                -1 <= p < target,
            invariant
                self.wf(),
                level < 32,
                count == self.nodes@.len(),
                list == self.levels@[level as int],
                target == rank(self.nodes@, list, key@),
                0 <= target <= list.len(),
                forall|q: int|
                    0 <= q < target ==> key::key_lt(self.nodes@[#[trigger] list[q]].key@, key@),
                forall|q: int|
                    target <= q < list.len() ==> !key::key_lt(
                        self.nodes@[#[trigger] list[q]].key@,
                        key@,
                    ),
            ensures
                at_place(list, curr, target - 1),
            decreases target - p,
        {
            let next: Option<usize> = match curr {
                None => self.head[level],
                Some(n) => {
                    assert(self.nodes@[list[p]].next@[level as int] == after(list, p));
                    self.nodes[n].next[level]
                },
            };
            match next {
                Some(n) => {
                    assert(list[p + 1] == n);
                    if self.nodes[n].key.is_before(key) {
                        curr = Some(n);
                        proof {
                            p = p + 1;
                        }
                    } else {
                        assert(p + 1 == target);
                        break;
                    }
                },
                None => {
                    assert(p + 1 == list.len());
                    break;
                },
            }
        }
        curr
    }

    /// The first node in key order that does not come before `key`.
    pub fn find_greater_or_equal(&self, key: &MemKey) -> (r: Option<usize>)
        requires
            self.wf(),
        ensures
            match r {
                Some(n) => key::place(self@, key@) < self@.len() && self.order()[key::place(
                    self@,
                    key@,
                )] == n,
                None => key::place(self@, key@) == self@.len(),
            },
    {
        let mut curr: Option<usize> = None;
        let mut level: usize = self.max_height;
        while level > 0
            invariant
                self.wf(),
                level <= self.max_height,
                curr matches Some(n) ==> n < self.nodes@.len() && self.nodes@[n as int].next@.len()
                    > level && key::key_lt(self.nodes@[n as int].key@, key@),
                level < self.max_height ==> at_place(
                    self.levels@[level as int],
                    curr,
                    rank(self.nodes@, self.levels@[level as int], key@) - 1,
                ),
            decreases level,
        {
            level = level - 1;
            curr = self.walk(level, curr, key);
        }
        let count: usize = self.nodes.len();
        let ghost list = self.levels@[0];
        assert(list_ok(self.nodes@, list, 0) && links_ok(self.head@, self.nodes@, list, 0));
        let ghost r = rank(self.nodes@, list, key@);
        proof {
            lemma_rank(self.nodes@, list, key@);
            assert forall|i: int| 0 <= i < r implies key::key_lt(#[trigger] self@[i].key, key@) by {
                assert(key::key_lt(self.nodes@[list[i]].key@, key@));
            }
            key::lemma_place_unique(self@, key@, r);
        }
        match curr {
            None => self.head[0],
            Some(n) => {
                assert(self.nodes@[list[r - 1]].next@[0] == after(list, r - 1));
                self.nodes[n].next[0]
            },
        }
    }
}

/// `n` empty links.
fn no_links(n: usize) -> (r: Vec<Option<usize>>)
    ensures
        r@.len() == n,
        forall|j: int| 0 <= j < n ==> #[trigger] r@[j] == None::<usize>,
{
    let mut r: Vec<Option<usize>> = Vec::new();
    let mut i: usize = 0;
    while i < n
        invariant
            i <= n,
            r@.len() == i,
            forall|j: int| 0 <= j < i ==> #[trigger] r@[j] == None::<usize>,
        decreases n - i,
    {
        r.push(None);
        i = i + 1;
    }
    r
}

/// The nodes are the old ones, up to their links, and one new one.
spec fn extends(nodes: Seq<Node>, before: Seq<Node>, height: int) -> bool {
    &&& nodes.len() == before.len() + 1
    &&& nodes[before.len() as int].next@.len() == height
    &&& forall|n: int|
        0 <= n < before.len() ==> (#[trigger] nodes[n]).key == before[n].key && nodes[n].value
            == before[n].value && nodes[n].next@.len() == before[n].next@.len()
}

/// A level's list with the new node in its place.
spec fn with_node(before: Seq<Node>, list: Seq<int>, key: KeyView) -> Seq<int> {
    list.insert(rank(before, list, key), before.len() as int)
}

/// A level's list stays in order with the new node in its place.
proof fn lemma_list_with_node(
    nodes: Seq<Node>,
    before: Seq<Node>,
    height: int,
    list: Seq<int>,
    l: int,
    key: KeyView,
)
    requires
        extends(nodes, before, height),
        nodes[before.len() as int].key@ == key,
        0 <= l < height,
        list_ok(before, list, l),
    ensures
        list_ok(nodes, with_node(before, list, key), l),
{
    let new = before.len() as int;
    let r = rank(before, list, key);
    let out = with_node(before, list, key);
    lemma_rank(before, list, key);
    lemma_rank_rest(before, list, l, key);
    assert forall|p: int| 0 <= p < out.len() implies 0 <= #[trigger] out[p] < nodes.len()
        && nodes[out[p]].next@.len() > l by {
        if p < r {
            assert(out[p] == list[p]);
        } else if p > r {
            assert(out[p] == list[p - 1]);
        }
    }
    assert forall|p: int, q: int| 0 <= p < q < out.len() implies #[trigger] out[p]
        != #[trigger] out[q] && !key::key_lt(nodes[out[q]].key@, nodes[out[p]].key@) by {
        let a = if p < r {
            p
        } else {
            p - 1
        };
        let b = if q < r {
            q
        } else {
            q - 1
        };
        if p == r {
            assert(out[q] == list[b]);
        } else if q == r {
            assert(out[p] == list[a]);
            key::lemma_key_lt_asymmetric(before[list[a]].key@, key);
        } else {
            assert(out[p] == list[a] && out[q] == list[b]);
        }
    }
    assert forall|n: int|
        0 <= n < nodes.len() && (#[trigger] nodes[n]).next@.len() > l implies out.contains(n) by {
        if n == new {
            assert(out[r] == n);
        } else {
            assert(before[n].next@.len() > l);
            let p = choose|p: int| 0 <= p < list.len() && list[p] == n;
            if p < r {
                assert(out[p] == n);
            } else {
                assert(out[p + 1] == n);
            }
        }
    }
}

/// A list of a level that the new node does not reach stays as it is.
proof fn lemma_list_without_node(
    nodes: Seq<Node>,
    before: Seq<Node>,
    height: int,
    list: Seq<int>,
    l: int,
)
    requires
        extends(nodes, before, height),
        height <= l,
        list_ok(before, list, l),
    ensures
        list_ok(nodes, list, l),
{
    assert forall|p: int, q: int| 0 <= p < q < list.len() implies !key::key_lt(
        nodes[#[trigger] list[q]].key@,
        nodes[#[trigger] list[p]].key@,
    ) by {
        assert(nodes[list[q]].key == before[list[q]].key);
        assert(nodes[list[p]].key == before[list[p]].key);
    }
    assert forall|n: int|
        0 <= n < nodes.len() && (#[trigger] nodes[n]).next@.len() > l implies list.contains(n) by {
        assert(n < before.len());
        assert(before[n].next@.len() > l);
    }
}

/// The nodes of a level before a key are the same before and after.
proof fn lemma_links_elsewhere(
    head: Seq<Option<usize>>,
    head2: Seq<Option<usize>>,
    nodes: Seq<Node>,
    nodes2: Seq<Node>,
    list: Seq<int>,
    l: int,
)
    requires
        links_ok(head, nodes, list, l),
        head[l] == head2[l],
        forall|p: int|
            0 <= p < list.len() ==> nodes2[#[trigger] list[p]].next@[l] == nodes[list[p]].next@[l],
    ensures
        links_ok(head2, nodes2, list, l),
{
}

/// Each level's list is in order and is what its links say.
#[verifier::opaque]
spec fn lists_ok(head: Seq<Option<usize>>, nodes: Seq<Node>, lists: Seq<Seq<int>>) -> bool {
    &&& head.len() == 32
    &&& lists.len() == 32
    &&& forall|l: int|
        0 <= l < 32 ==> list_ok(nodes, #[trigger] lists[l], l) && links_ok(
            head,
            nodes,
            lists[l],
            l,
        )
}

/// The new node has been linked into the levels below `level`.
#[verifier::opaque]
spec fn partly_linked(
    head: Seq<Option<usize>>,
    nodes: Seq<Node>,
    head0: Seq<Option<usize>>,
    before: Seq<Node>,
    lists: Seq<Seq<int>>,
    k: KeyView,
    height: int,
    level: int,
) -> bool {
    &&& head.len() == 32
    &&& extends(nodes, before, height)
    &&& nodes[before.len() as int].key@ == k
    &&& forall|n: int, l: int|
        #![trigger nodes[n].next@[l]]
        0 <= n < before.len() && level <= l < before[n].next@.len() ==> nodes[n].next@[l]
            == before[n].next@[l]
    &&& forall|l: int| level <= l < 32 ==> #[trigger] head[l] == head0[l]
    &&& forall|l: int|
        0 <= l < level ==> links_ok(head, nodes, with_node(before, #[trigger] lists[l], k), l)
}

/// One node was linked into one level, behind `pred` or at the front.
spec fn linked(
    head1: Seq<Option<usize>>,
    nodes1: Seq<Node>,
    head2: Seq<Option<usize>>,
    nodes2: Seq<Node>,
    level: int,
    pred: Option<usize>,
    new: int,
) -> bool {
    &&& nodes2.len() == nodes1.len()
    &&& head2 == (if pred is None {
        head1.update(level, Some(new as usize))
    } else {
        head1
    })
    &&& forall|n: int|
        0 <= n < nodes1.len() ==> (#[trigger] nodes2[n]).key == nodes1[n].key && nodes2[n].value
            == nodes1[n].value && nodes2[n].next@ == (if n == new {
            nodes1[n].next@.update(
                level,
                (match pred {
                    Some(m) => nodes1[m as int].next@[level],
                    None => head1[level],
                }),
            )
        } else if pred is Some && pred->0 == n {
            nodes1[n].next@.update(level, Some(new as usize))
        } else {
            nodes1[n].next@
        })
}

/// What linking needs to know of the node in front.
proof fn lemma_before_link(
    head1: Seq<Option<usize>>,
    nodes1: Seq<Node>,
    head0: Seq<Option<usize>>,
    before: Seq<Node>,
    lists: Seq<Seq<int>>,
    k: KeyView,
    height: int,
    level: int,
    pred: Option<usize>,
)
    requires
        lists_ok(head0, before, lists),
        partly_linked(head1, nodes1, head0, before, lists, k, height, level),
        0 <= level < height <= 32,
        at_place(lists[level], pred, rank(before, lists[level], k) - 1),
    ensures
        head1.len() == 32,
        nodes1.len() == before.len() + 1,
        nodes1[before.len() as int].next@.len() > level,
        pred matches Some(n) ==> n < before.len() && nodes1[n as int].next@.len() > level,
{
    reveal(lists_ok);
    reveal(partly_linked);
    lemma_rank(before, lists[level], k);
    assert(list_ok(before, lists[level], level));
}

/// The links of the level into which the node was linked.
proof fn lemma_link_here(
    head1: Seq<Option<usize>>,
    nodes1: Seq<Node>,
    head2: Seq<Option<usize>>,
    nodes2: Seq<Node>,
    before: Seq<Node>,
    list: Seq<int>,
    k: KeyView,
    level: int,
    pred: Option<usize>,
)
    requires
        before.len() < usize::MAX,
        nodes1.len() == before.len() + 1,
        0 <= level < head1.len(),
        list_ok(before, list, level),
        links_ok(head1, nodes1, list, level),
        forall|n: int|
            0 <= n < before.len() ==> (#[trigger] nodes1[n]).next@.len() == before[n].next@.len(),
        nodes1[before.len() as int].next@.len() > level,
        at_place(list, pred, rank(before, list, k) - 1),
        linked(head1, nodes1, head2, nodes2, level, pred, before.len() as int),
    ensures
        links_ok(head2, nodes2, with_node(before, list, k), level),
{
    let new = before.len() as int;
    let r = rank(before, list, k);
    let out = with_node(before, list, k);
    lemma_rank(before, list, k);
    if r > 0 {
        assert(list[r - 1] == pred->0);
        assert(nodes1[list[r - 1]].next@[level] == after(list, r - 1));
    }
    assert forall|p: int| 0 <= p < out.len() implies nodes2[#[trigger] out[p]].next@[level] == after(
        out,
        p,
    ) by {
        if p < r {
            assert(out[p] == list[p]);
            assert(nodes1[list[p]].next@[level] == after(list, p));
            if p + 1 < r {
                assert(list[p] != list[r - 1]);
                assert(out[p + 1] == list[p + 1]);
            } else {
                assert(out[p + 1] == new);
            }
        } else if p > r {
            assert(out[p] == list[p - 1]);
            assert(nodes1[list[p - 1]].next@[level] == after(list, p - 1));
            if r > 0 {
                assert(list[p - 1] != list[r - 1]);
            }
            if p + 1 < out.len() {
                assert(out[p + 1] == list[p]);
            }
        } else {
            assert(out[p] == new);
            if p + 1 < out.len() {
                assert(out[p + 1] == list[p]);
            }
        }
    }
    if r == 0 {
        assert(out[0] == new);
    } else {
        assert(out[0] == list[0]);
    }
}

/// Linking the node into one more level.
#[verifier::spinoff_prover]
#[verifier::rlimit(60)]
proof fn lemma_link_step(
    head1: Seq<Option<usize>>,
    nodes1: Seq<Node>,
    head2: Seq<Option<usize>>,
    nodes2: Seq<Node>,
    head0: Seq<Option<usize>>,
    before: Seq<Node>,
    lists: Seq<Seq<int>>,
    k: KeyView,
    height: int,
    level: int,
    pred: Option<usize>,
)
    requires
        before.len() < usize::MAX,
        lists_ok(head0, before, lists),
        partly_linked(head1, nodes1, head0, before, lists, k, height, level),
        0 <= level < height <= 32,
        at_place(lists[level], pred, rank(before, lists[level], k) - 1),
        linked(head1, nodes1, head2, nodes2, level, pred, before.len() as int),
    ensures
        partly_linked(head2, nodes2, head0, before, lists, k, height, level + 1),
{
    reveal(partly_linked);
    assert(list_ok(before, lists[level], level) && links_ok(head0, before, lists[level], level))
        by {
        reveal(lists_ok);
    }
    assert(links_ok(head1, nodes1, lists[level], level)) by {
        let list = lists[level];
        assert(head1[level] == head0[level]);
        assert forall|p: int| 0 <= p < list.len() implies nodes1[#[trigger] list[p]].next@[level]
            == after(list, p) by {
            assert(nodes1[list[p]].next@[level] == before[list[p]].next@[level]);
        }
    }
    lemma_link_here(head1, nodes1, head2, nodes2, before, lists[level], k, level, pred);
    assert forall|l: int| 0 <= l < level implies links_ok(
        head2,
        nodes2,
        with_node(before, #[trigger] lists[l], k),
        l,
    ) by {
        let other = with_node(before, lists[l], k);
        assert(list_ok(before, lists[l], l)) by {
            reveal(lists_ok);
        }
        lemma_list_with_node(nodes1, before, height, lists[l], l, k);
        assert(links_ok(head1, nodes1, other, l));
        lemma_links_elsewhere(head1, head2, nodes1, nodes2, other, l);
    }
    assert forall|n: int, l: int|
        #![trigger nodes2[n].next@[l]]
        0 <= n < before.len() && level + 1 <= l < before[n].next@.len() implies nodes2[n].next@[l]
        == before[n].next@[l] by {
        assert(nodes1[n].next@[l] == before[n].next@[l]);
    }
}

/// The lists with the new node in place.
spec fn lists_with_node(before: Seq<Node>, lists: Seq<Seq<int>>, k: KeyView, height: int) -> Seq<
    Seq<int>,
> {
    Seq::new(
        32,
        |l: int|
            if l < height {
                with_node(before, lists[l], k)
            } else {
                lists[l]
            },
    )
}

proof fn lemma_all_linked(
    head: Seq<Option<usize>>,
    nodes: Seq<Node>,
    head0: Seq<Option<usize>>,
    before: Seq<Node>,
    lists: Seq<Seq<int>>,
    k: KeyView,
    height: int,
)
    requires
        lists_ok(head0, before, lists),
        partly_linked(head, nodes, head0, before, lists, k, height, height),
        1 <= height <= 32,
    ensures
        lists_ok(head, nodes, lists_with_node(before, lists, k, height)),
        extends(nodes, before, height),
{
    reveal(lists_ok);
    reveal(partly_linked);
    let updated = lists_with_node(before, lists, k, height);
    assert forall|l: int| 0 <= l < 32 implies list_ok(nodes, #[trigger] updated[l], l) && links_ok(
        head,
        nodes,
        updated[l],
        l,
    ) by {
        assert(list_ok(before, lists[l], l));
        if l < height {
            lemma_list_with_node(nodes, before, height, lists[l], l, k);
        } else {
            lemma_list_without_node(nodes, before, height, lists[l], l);
            lemma_links_elsewhere(head0, head, before, nodes, lists[l], l);
        }
    }
}

/// The versions in key order, with the new one in its place.
proof fn lemma_view_with_node(
    nodes: Seq<Node>,
    before: Seq<Node>,
    list: Seq<int>,
    k: KeyView,
    height: int,
)
    requires
        extends(nodes, before, height),
        list_ok(before, list, 0),
        nodes[before.len() as int].key@ == k,
    ensures
        ({
            let run = list.map_values(|n: int| node_version(before[n]));
            with_node(before, list, k).map_values(|n: int| node_version(nodes[n])) == run.insert(
                key::place(run, k),
                node_version(nodes[before.len() as int]),
            )
        }),
        rank(before, list, k) == key::place(
            list.map_values(|n: int| node_version(before[n])),
            k,
        ),
{
    let r = rank(before, list, k);
    lemma_rank(before, list, k);
    let run = list.map_values(|n: int| node_version(before[n]));
    assert forall|i: int| 0 <= i < r implies key::key_lt(#[trigger] run[i].key, k) by {
        assert(key::key_lt(before[list[i]].key@, k));
    }
    key::lemma_place_unique(run, k, r);
    let out = with_node(before, list, k);
    let got = out.map_values(|n: int| node_version(nodes[n]));
    let expected = run.insert(r, node_version(nodes[before.len() as int]));
    assert forall|p: int| 0 <= p < got.len() implies got[p] == expected[p] by {
        if p < r {
            assert(out[p] == list[p]);
        } else if p > r {
            assert(out[p] == list[p - 1]);
        }
    }
    assert(got =~= expected);
}

impl SkipList {
    /// A height: one, and one more with every coin that shows heads, up to 32.
    fn random_height(&self) -> (r: usize)
        ensures
            1 <= r <= 32,
    {
        let mut height: usize = 1;
        while height < 32
            invariant
                1 <= height <= 32,
            decreases 32 - height,
        {
            if !random::coin() {
                return height;
            }
            height = height + 1;
        }
        height
    }

    /// Adds a version, in front of those with the same key and time.
    pub fn insert(&mut self, key: MemKey, value: Option<Vec<u8>>)
        requires
            old(self).wf(),
        ensures
            final(self).wf(),
            final(self)@ == old(self)@.insert(
                key::place(old(self)@, key@),
                Version { key: key@, value: bytes::value_view(value) },
            ),
            final(self).order() == old(self).order().insert(
                key::place(old(self)@, key@),
                old(self)@.len() as int,
            ),
    {
        let height: usize = self.random_height();
        self.insert_with_height(key, value, height);
    }

    /// Links a node into one level, behind `pred` or at the front.
    fn link(&mut self, level: usize, pred: Option<usize>, new_idx: usize)
        requires
            level < old(self).head@.len(),
            new_idx < old(self).nodes@.len(),
            old(self).nodes@[new_idx as int].next@.len() > level,
            pred matches Some(n) ==> n < new_idx && old(self).nodes@[n as int].next@.len() > level,
        ensures
            final(self).levels == old(self).levels,
            final(self).max_height == old(self).max_height,
            linked(
                old(self).head@,
                old(self).nodes@,
                final(self).head@,
                final(self).nodes@,
                level as int,
                pred,
                new_idx as int,
            ),
    {
        match pred {
            Some(n) => {
                let link: Option<usize> = self.nodes[n].next[level];
                self.nodes[new_idx].next[level] = link;
                self.nodes[n].next[level] = Some(new_idx);
            },
            None => {
                let link: Option<usize> = self.head[level];
                self.nodes[new_idx].next[level] = link;
                self.head[level] = Some(new_idx);
            },
        }
    }

    /// Adds a version that is linked on the given number of levels.
    #[verifier::spinoff_prover]
    #[verifier::rlimit(60)]
    pub fn insert_with_height(&mut self, key: MemKey, value: Option<Vec<u8>>, height: usize)
        requires
            old(self).wf(),
            1 <= height <= 32,
        ensures
            final(self).wf(),
            final(self)@ == old(self)@.insert(
                key::place(old(self)@, key@),
                Version { key: key@, value: bytes::value_view(value) },
            ),
            final(self).order() == old(self).order().insert(
                key::place(old(self)@, key@),
                old(self)@.len() as int,
            ),
    {
        assert(self.nodes@.len() == self@.len()) by {
            lemma_node_count(self.nodes@, self.levels@[0]);
        }
        if height > self.max_height {
            self.max_height = height;
        }
        let ghost lists = self.levels@;
        let ghost before = self.nodes@;
        let ghost head0 = self.head@;
        let ghost k = key@;
        let mut update: Vec<Option<usize>> = no_links(self.max_height);
        let mut curr: Option<usize> = None;
        let mut level: usize = self.max_height;
        while level > 0
            invariant
                self.wf(),
                self.levels@ == lists,
                self.nodes@ == before,
                self.head@ == head0,
                key@ == k,
                level <= self.max_height,
                height <= self.max_height,
                update@.len() == self.max_height,
                curr matches Some(n) ==> n < before.len() && before[n as int].next@.len() > level
                    && key::key_lt(before[n as int].key@, k),
                forall|l: int|
                    level <= l < self.max_height ==> at_place(
                        lists[l],
                        #[trigger] update@[l],
                        rank(before, lists[l], k) - 1,
                    ),
            decreases level,
        {
            level = level - 1;
            curr = self.walk(level, curr, &key);
            update.set(level, curr);
        }
        let new_idx: usize = self.nodes.len();
        let ghost version = Version { key: k, value: bytes::value_view(value) };
        assert(lists_ok(head0, before, lists)) by {
            reveal(lists_ok);
        }
        self.nodes.push(Node { key, value, next: no_links(height) });
        let count: usize = self.nodes.len();
        assert(partly_linked(self.head@, self.nodes@, head0, before, lists, k, height as int, 0))
            by {
            reveal(partly_linked);
        }
        let mut level: usize = 0;
        while level < height
            invariant
                level <= height <= 32,
                height <= self.max_height <= 32,
                self.max_height == update@.len(),
                self.levels@ == lists,
                new_idx == before.len(),
                before.len() < usize::MAX,
                forall|l: int|
                    0 <= l < self.max_height ==> at_place(
                        lists[l],
                        #[trigger] update@[l],
                        rank(before, lists[l], k) - 1,
                    ),
                lists_ok(head0, before, lists),
                self.nodes@.len() == before.len() + 1,
                node_version(self.nodes@[before.len() as int]) == version,
                partly_linked(
                    self.head@,
                    self.nodes@,
                    head0,
                    before,
                    lists,
                    k,
                    height as int,
                    level as int,
                ),
            decreases height - level,
        {
            let pred: Option<usize> = update[level];
            let ghost head1 = self.head@;
            let ghost nodes1 = self.nodes@;
            proof {
                lemma_before_link(
                    head1,
                    nodes1,
                    head0,
                    before,
                    lists,
                    k,
                    height as int,
                    level as int,
                    pred,
                );
            }
            self.link(level, pred, new_idx);
            proof {
                lemma_link_step(
                    head1,
                    nodes1,
                    self.head@,
                    self.nodes@,
                    head0,
                    before,
                    lists,
                    k,
                    height as int,
                    level as int,
                    pred,
                );
            }
            level = level + 1;
        }
        proof {
            lemma_all_linked(self.head@, self.nodes@, head0, before, lists, k, height as int);
            self.levels@ = lists_with_node(before, lists, k, height as int);
            reveal(lists_ok);
            lemma_view_with_node(self.nodes@, before, lists[0], k, height as int);
            assert(self@ == old(self)@.insert(key::place(old(self)@, k), version));
            assert(self.order() == lists[0].insert(key::place(old(self)@, k), old(self)@.len() as int));
        }
    }
}

/// The list that links all nodes holds each of them once.
proof fn lemma_node_count(nodes: Seq<Node>, list: Seq<int>)
    requires
        list_ok(nodes, list, 0),
        forall|n: int| 0 <= n < nodes.len() ==> 1 <= (#[trigger] nodes[n]).next@.len(),
    ensures
        list.len() == nodes.len(),
{
    let all = vstd::set_lib::set_int_range(0, nodes.len() as int);
    vstd::set_lib::lemma_int_range(0, nodes.len() as int);
    list.unique_seq_to_set();
    assert forall|n: int| #[trigger] list.to_set().contains(n) <==> all.contains(n) by {
        if list.contains(n) {
            let p = choose|p: int| 0 <= p < list.len() && list[p] == n;
            assert(0 <= list[p] < nodes.len());
        }
        if 0 <= n < nodes.len() {
            assert(nodes[n].next@.len() > 0);
        }
    }
    assert(list.to_set() =~= all);
}

/// The node that a search finds in a list of versions, whose nodes have these
/// numbers.
pub open spec fn found(versions: Seq<Version>, order: Seq<int>, key: KeyView) -> Option<int> {
    let p = key::place(versions, key);
    if p < versions.len() {
        Some(order[p])
    } else {
        None
    }
}

/// After an insertion a search finds the new node where its key does not come before
/// the one that is looked for and nothing that was there lies between; else it finds
/// what it found. The new node has the number of nodes before it, and the others keep
/// theirs.
pub proof fn lemma_found_after_insertion(
    versions: Seq<Version>,
    order: Seq<int>,
    new: Version,
    probe: KeyView,
)
    requires
        key::sorted(versions),
        order.len() == versions.len(),
    ensures
        ({
            let p = key::place(versions, new.key);
            let q = key::place(versions, probe);
            found(versions.insert(p, new), order.insert(p, versions.len() as int), probe) == if
            !key::key_lt(new.key, probe) && (q == versions.len() || !key::key_lt(
                versions[q].key,
                new.key,
            )) {
                Some(versions.len() as int)
            } else {
                found(versions, order, probe)
            }
        }),
{
    let p = key::place(versions, new.key);
    let q = key::place(versions, probe);
    let after = versions.insert(p, new);
    key::lemma_place(versions, new.key);
    key::lemma_place(versions, probe);
    key::lemma_place_rest(versions, new.key);
    key::lemma_place_rest(versions, probe);
    if key::key_lt(new.key, probe) {
        if q < p {
            assert(key::key_lt(versions[q].key, new.key));
            key::lemma_key_lt_transitive(versions[q].key, new.key, probe);
        }
        assert forall|i: int| 0 <= i < q + 1 implies key::key_lt(#[trigger] after[i].key, probe) by {
            if i < p {
                assert(after[i] == versions[i]);
            } else if i > p {
                assert(after[i] == versions[i - 1]);
            }
        }
        if q + 1 < after.len() {
            assert(after[q + 1] == versions[q]);
        }
        key::lemma_place_unique(after, probe, q + 1);
    } else {
        if p < q {
            assert(key::key_lt(versions[p].key, probe));
            key::lemma_key_ge_transitive(probe, new.key, versions[p].key);
        }
        assert(q <= p);
        assert forall|i: int| 0 <= i < q implies key::key_lt(#[trigger] after[i].key, probe) by {
            assert(after[i] == versions[i]);
        }
        if q < p {
            assert(after[q] == versions[q]);
            assert(key::key_lt(versions[q].key, new.key));
        }
        key::lemma_place_unique(after, probe, q);
    }
}

impl SkipList {
    /// The versions are in key order.
    pub proof fn lemma_sorted(&self)
        requires
            self.wf(),
        ensures
            key::sorted(self@),
    {
        let list = self.levels@[0];
        assert(list_ok(self.nodes@, list, 0));
        assert forall|i: int, j: int| 0 <= i < j < self@.len() implies !key::key_lt(
            self@[j].key,
            self@[i].key,
        ) by {
            assert(!key::key_lt(self.nodes@[list[j]].key@, self.nodes@[list[i]].key@));
        }
    }

    /// How many versions there are.
    pub fn len(&self) -> (r: usize)
        requires
            self.wf(),
        ensures
            r == self@.len(),
    {
        proof {
            lemma_node_count(self.nodes@, self.levels@[0]);
        }
        self.nodes.len()
    }

    /// The node behind the one at place `p`.
    pub(crate) fn next_of(&self, n: usize, p: Ghost<int>) -> (r: Option<usize>)
        requires
            self.wf(),
            0 <= p@ < self@.len(),
            self.order()[p@] == n,
        ensures
            match r {
                Some(m) => p@ + 1 < self@.len() && self.order()[p@ + 1] == m,
                None => p@ + 1 == self@.len(),
            },
    {
        let count: usize = self.nodes.len();
        let ghost list = self.levels@[0];
        assert(list_ok(self.nodes@, list, 0) && links_ok(self.head@, self.nodes@, list, 0));
        assert(self.nodes@[list[p@]].next@[0] == after(list, p@));
        assert(p@ + 1 < list.len() ==> list[p@ + 1] < self.nodes@.len());
        self.nodes[n].next[0]
    }

    /// All versions in key order.
    pub fn iter_all(&self) -> (r: Vec<(MemKey, Option<Vec<u8>>)>)
        requires
            self.wf(),
        ensures
            key::version_views(r@) == self@,
    {
        let count: usize = self.nodes.len();
        let ghost list = self.levels@[0];
        assert(list_ok(self.nodes@, list, 0) && links_ok(self.head@, self.nodes@, list, 0));
        let mut curr: Option<usize> = self.head[0];
        let mut res: Vec<(MemKey, Option<Vec<u8>>)> = Vec::new();
        let ghost mut p: int = 0;
        assert(key::version_views(res@) =~= self@.take(0));
        proof {
            if list.len() > 0 {
                assert(list[0] < self.nodes@.len());
            }
        }
        while curr.is_some()
            invariant
                self.wf(),
                0 <= p <= self@.len(),
                curr matches Some(n) ==> p < self@.len() && self.order()[p] == n,
                curr is None ==> p == self@.len(),
                key::version_views(res@) == self@.take(p),
            decreases self@.len() - p,
        {
            let n: usize = curr.unwrap();
            let ghost list = self.levels@[0];
            assert(list_ok(self.nodes@, list, 0));
            assert(list[p] == n);
            let node = &self.nodes[n];
            let ghost before = key::version_views(res@);
            let item = (node.key.clone(), bytes::copy_value(&node.value));
            let ghost view = key::version_view(item);
            res.push(item);
            proof {
                assert(key::version_views(res@) =~= before.push(view));
                assert(view == self@[p]);
                assert(self@.take(p + 1) =~= self@.take(p).push(self@[p]));
            }
            curr = self.next_of(n, Ghost(p));
            proof {
                p = p + 1;
            }
        }
        assert(self@.take(p) =~= self@);
        res
    }
}

impl SkipList {
    /// The version at place `p`.
    pub(crate) fn entry(&self, n: usize, p: Ghost<int>) -> (r: (&MemKey, &Option<Vec<u8>>))
        requires
            self.wf(),
            0 <= p@ < self@.len(),
            self.order()[p@] == n,
        ensures
            self@[p@] == (Version { key: r.0@, value: bytes::value_view(*r.1) }),
    {
        let ghost list = self.levels@[0];
        assert(list_ok(self.nodes@, list, 0));
        assert(list[p@] == n);
        let node = &self.nodes[n];
        (&node.key, &node.value)
    }
}

} // verus!
