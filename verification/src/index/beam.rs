//! Beam search on a graph: from some nodes on along edges towards those that
//! are nearest to a query.
use crate::index::measure;
use crate::index::measure::ask;
use crate::index::walk;
use crate::index::walk::{Field, Near, Pace, Walk};
use std::collections::HashSet;
use vstd::prelude::*;

verus! {

broadcast use vstd::std_specs::hash::group_hash_axioms;

fn is_nearer(a: &Near, b: &Near) -> (r: bool)
    ensures
        r == walk::near_lt(*a, *b),
{
    a.rank < b.rank || (a.rank == b.rank && a.id < b.id)
}

/// A search under way: what is still to be expanded, the farthest first; the
/// best so far, the nearest first; and what was seen.
pub struct Beam {
    cands: Vec<Near>,
    res: Vec<Near>,
    visited: HashSet<u64>,
    ef: usize,
}

impl Beam {
    pub closed spec fn walk(&self) -> Walk {
        Walk { cands: self.cands@, best: self.res@, seen: self.visited@ }
    }

    pub closed spec fn width(&self) -> usize {
        self.ef
    }

    pub closed spec fn wf(&self) -> bool {
        walk::tidy(self.walk())
    }

    /// A search that has seen nothing.
    pub fn new(ef: usize) -> (r: Self)
        ensures
            r.wf(),
            r.width() == ef,
            r.walk() == walk::nothing(),
    {
        let r = Beam { cands: Vec::new(), res: Vec::new(), visited: HashSet::new(), ef };
        assert(r.walk() =~= walk::nothing());
        r
    }

    /// Whether the node was seen.
    pub fn has_seen(&self, id: u64) -> (r: bool)
        ensures
            r == self.walk().seen.contains(id),
    {
        self.visited.contains(&id)
    }

    fn insert_res(&mut self, n: Near)
        requires
            walk::rising(old(self).res@),
            !walk::has_id(old(self).res@, n.id),
        ensures
            final(self).cands == old(self).cands,
            final(self).visited == old(self).visited,
            final(self).ef == old(self).ef,
            final(self).res@ == walk::with_near(old(self).res@, n),
    {
        let ghost before = self.res@;
        let mut p: usize = 0;
        let mut end: usize = self.res.len();
        while p < end
            invariant
                p <= end <= self.res@.len(),
                before == self.res@,
                *self == *old(self),
                !walk::has_id(before, n.id),
                walk::rising(before),
                forall|i: int| 0 <= i < p ==> walk::near_lt(#[trigger] before[i], n),
                forall|i: int| end <= i < before.len() ==> walk::near_lt(n, #[trigger] before[i]),
            decreases end - p,
        {
            let mid: usize = p + (end - p) / 2;
            assert(before[mid as int].id != n.id);
            if is_nearer(&n, &self.res[mid]) {
                end = mid;
            } else {
                p = mid + 1;
            }
        }
        self.res.insert(p, n);
        proof {
            let q = walk::lemma_with_near(before, n);
            if q < p {
                assert(walk::near_lt(before[q], n) && walk::near_lt(n, before[q]));
            } else if p < q {
                assert(walk::near_lt(before[p as int], n) && walk::near_lt(n, before[p as int]));
            }
        }
    }

    fn insert_cand(&mut self, n: Near)
        requires
            walk::falling(old(self).cands@),
            !walk::has_id(old(self).cands@, n.id),
        ensures
            final(self).res == old(self).res,
            final(self).visited == old(self).visited,
            final(self).ef == old(self).ef,
            final(self).cands@ == walk::with_far(old(self).cands@, n),
    {
        let ghost before = self.cands@;
        let mut p: usize = 0;
        let mut end: usize = self.cands.len();
        while p < end
            invariant
                p <= end <= self.cands@.len(),
                before == self.cands@,
                *self == *old(self),
                !walk::has_id(before, n.id),
                walk::falling(before),
                forall|i: int| 0 <= i < p ==> walk::near_lt(n, #[trigger] before[i]),
                forall|i: int| end <= i < before.len() ==> walk::near_lt(#[trigger] before[i], n),
            decreases end - p,
        {
            let mid: usize = p + (end - p) / 2;
            assert(before[mid as int].id != n.id);
            if is_nearer(&self.cands[mid], &n) {
                end = mid;
            } else {
                p = mid + 1;
            }
        }
        self.cands.insert(p, n);
        proof {
            let q = walk::lemma_with_far(before, n);
            if q < p {
                assert(walk::near_lt(before[q], n) && walk::near_lt(n, before[q]));
            } else if p < q {
                assert(walk::near_lt(before[p as int], n) && walk::near_lt(n, before[p as int]));
            }
        }
    }

    /// Comes upon a node that counts.
    fn take(&mut self, n: Near)
        requires
            old(self).wf(),
            !old(self).walk().seen.contains(n.id),
        ensures
            final(self).wf(),
            final(self).width() == old(self).width(),
            final(self).walk() == walk::taken(old(self).walk(), n, old(self).width() as nat),
    {
        let ghost w = self.walk();
        proof {
            walk::lemma_unseen(w, n.id);
            walk::lemma_taken_tidy(w, n, self.ef as nat);
        }
        self.visited.insert(n.id);
        let len: usize = self.res.len();
        if len == 0 || n.rank < self.res[len - 1].rank || len < self.ef {
            self.insert_cand(n);
            self.insert_res(n);
            if self.res.len() > self.ef {
                let _ = self.res.pop();
            }
        }
        assert(self.walk() =~= walk::taken(w, n, self.ef as nat));
    }

    /// Comes upon a node that was not seen, with its rank if it counts.
    pub fn offer(&mut self, id: u64, rank: Option<u32>, f: Ghost<Field>)
        requires
            old(self).wf(),
            !old(self).walk().seen.contains(id),
            match rank {
                Some(r) => f@.live.contains(id) && r == (f@.rank)(id),
                None => !f@.live.contains(id),
            },
        ensures
            final(self).wf(),
            final(self).width() == old(self).width(),
            final(self).walk() == walk::offered(f@, old(self).walk(), id, old(self).width() as nat),
    {
        match rank {
            Some(r) => {
                self.take(Near { rank: r, id });
            },
            None => {
                self.visited.insert(id);
            },
        }
    }

    /// The next node to be expanded, if there is one that can lead on.
    pub fn next(&mut self) -> (r: Option<u64>)
        requires
            old(self).wf(),
        ensures
            final(self).wf(),
            final(self).width() == old(self).width(),
            match r {
                Some(id) => {
                    &&& old(self).walk().cands.len() > 0
                    &&& !walk::is_far(old(self).walk())
                    &&& id == old(self).walk().cands.last().id
                    &&& final(self).walk() == walk::popped(old(self).walk())
                },
                None => if old(self).walk().cands.len() == 0 {
                    final(self).walk() == old(self).walk()
                } else {
                    walk::is_far(old(self).walk()) && final(self).walk() == walk::popped(old(self).walk())
                },
            },
    {
        let ghost w = self.walk();
        match self.cands.pop() {
            None => {
                assert(self.walk() =~= w);
                None
            },
            Some(c) => {
                assert(self.walk() =~= walk::popped(w));
                let n: usize = self.res.len();
                if n > 0 && c.rank > self.res[n - 1].rank {
                    return None;
                }
                Some(c.id)
            },
        }
    }

    /// The end of a search: the best, the nearest first.
    pub fn finish(self) -> (r: Vec<u64>)
        ensures
            r@ == walk::ids(self.walk().best),
    {
        let mut out: Vec<u64> = Vec::new();
        let mut i: usize = 0;
        while i < self.res.len()
            invariant
                i <= self.res@.len(),
                out@.len() == i,
                forall|k: int| 0 <= k < i ==> #[trigger] out@[k] == self.res@[k].id,
            decreases self.res@.len() - i,
        {
            out.push(self.res[i].id);
            i = i + 1;
        }
        assert(out@ =~= walk::ids(self.res@));
        out
    }
}

/// The callers' answers are those of the field.
pub open spec fn describes<D, L, E>(dist: D, live: L, edges: E, f: Field) -> bool where
    D: Fn(u64) -> u32,
    L: Fn(u64) -> bool,
    E: Fn(u64) -> Vec<u64>,
 {
    &&& measure::gauges(dist, f.rank)
    &&& forall|id: u64| #[trigger] call_requires(live, (id,))
    &&& forall|id: u64, r: bool| #[trigger]
        call_ensures(live, (id,), r) ==> r == f.live.contains(id)
    &&& forall|id: u64| #[trigger] call_requires(edges, (id,))
    &&& forall|id: u64, r: Vec<u64>| #[trigger]
        call_ensures(edges, (id,), r) ==> r@ == (f.edges)(id)
}

/// Comes upon nodes, one after the other.
fn offer_all<D, L>(b: &mut Beam, ids: &[u64], dist: &D, live: &L, f: Ghost<Field>) where
    D: Fn(u64) -> u32,
    L: Fn(u64) -> bool,

    requires
        old(b).wf(),
        measure::gauges(*dist, f@.rank),
        forall|id: u64| #[trigger] call_requires(*live, (id,)),
        forall|id: u64, r: bool| #[trigger]
            call_ensures(*live, (id,), r) ==> r == f@.live.contains(id),
    ensures
        final(b).wf(),
        final(b).width() == old(b).width(),
        final(b).walk() == walk::offered_all(f@, old(b).walk(), ids@, old(b).width() as nat),
{
    let ghost w = b.walk();
    let ghost ef = b.width() as nat;
    let mut i: usize = 0;
    assert(ids@.take(0) =~= Seq::empty());
    while i < ids.len()
        invariant
            i <= ids@.len(),
            b.wf(),
            b.width() == old(b).width(),
            ef == b.width(),
            b.walk() == walk::offered_all(f@, w, ids@.take(i as int), ef),
            measure::gauges(*dist, f@.rank),
            forall|id: u64| #[trigger] call_requires(*live, (id,)),
            forall|id: u64, r: bool| #[trigger]
                call_ensures(*live, (id,), r) ==> r == f@.live.contains(id),
        decreases ids@.len() - i,
    {
        let id: u64 = ids[i];
        assert(ids@.take(i + 1).drop_last() =~= ids@.take(i as int));
        assert(ids@.take(i + 1).last() == id);
        if !b.has_seen(id) {
            let counts: bool = live(id);
            let rank: Option<u32> = if counts {
                Some(ask(dist, id, Ghost(f@.rank)))
            } else {
                None
            };
            b.offer(id, rank, f);
        }
        i = i + 1;
    }
    assert(ids@.take(i as int) =~= ids@);
}

/// A beam search of width `ef`, from the given nodes on. `dist` says how far a
/// node is from the query, `live` whether it counts, and `edges` where its
/// edges lead.
pub fn search<D, L, E>(
    dist: &D,
    live: &L,
    edges: &E,
    entry_points: &[u64],
    ef: usize,
    f: Ghost<Field>,
) -> (r: Vec<u64>) where D: Fn(u64) -> u32, L: Fn(u64) -> bool, E: Fn(u64) -> Vec<u64>
    requires
        describes(*dist, *live, *edges, f@),
        f@.live.finite(),
        f@.seeds == entry_points@,
    ensures
        r@ == walk::found(f@, ef as nat),
{
    let ghost p = walk::one_by_one(ef as nat);
    if ef == 0 {
        let none: Vec<u64> = Vec::new();
        proof {
            walk::lemma_found_is_beam(f@, p);
            assert(none@ =~= walk::found(f@, 0));
        }
        return none;
    }
    let ghost end = walk::walked(f@, walk::started(f@, ef as nat), p);
    let mut b = Beam::new(ef);
    offer_all(&mut b, entry_points, dist, live, f);
    proof {
        walk::lemma_one_by_one(f@, b.walk(), ef as nat);
    }
    let mut next: Option<u64> = b.next();
    while next.is_some()
        invariant
            describes(*dist, *live, *edges, f@),
            f@.live.finite(),
            b.wf(),
            b.width() == ef,
            p == walk::one_by_one(ef as nat),
            match next {
                Some(id) => walk::walked(
                    f@,
                    walk::offered_all(f@, b.walk(), (f@.edges)(id), ef as nat),
                    p,
                ) == end,
                None => b.walk().best == end.best,
            },
        decreases walk::left(f@, b.walk()), b.walk().cands.len(), steps_left(next),
    {
        let id: u64 = next.unwrap();
        let nbs: Vec<u64> = edges(id);
        let ghost w = b.walk();
        offer_all(&mut b, nbs.as_slice(), dist, live, f);
        proof {
            walk::lemma_offered_all_shrinks(f@, w, nbs@, ef as nat);
            walk::lemma_one_by_one(f@, b.walk(), ef as nat);
        }
        next = b.next();
    }
    b.finish()
}

/// One where there is a next node.
spec fn steps_left(next: Option<u64>) -> nat {
    if next is Some {
        1
    } else {
        0
    }
}

// ----------------------------------------------------------------------
// Several nodes at once
// ----------------------------------------------------------------------
/// The callers' answers are those of the field; where edges lead is asked for
/// several nodes at once.
pub open spec fn describes_batches<D, L, E>(dist: D, live: L, edges: E, f: Field) -> bool where
    D: Fn(u64) -> u32,
    L: Fn(u64) -> bool,
    E: Fn(Vec<u64>) -> Result<Vec<Vec<u64>>, String>,
 {
    &&& measure::gauges(dist, f.rank)
    &&& forall|id: u64| #[trigger] call_requires(live, (id,))
    &&& forall|id: u64, r: bool| #[trigger]
        call_ensures(live, (id,), r) ==> r == f.live.contains(id)
    &&& forall|b: Vec<u64>| #[trigger] call_requires(edges, (b,))
    &&& forall|b: Vec<u64>, r: Vec<Vec<u64>>| #[trigger]
        call_ensures(edges, (b,), Ok::<Vec<Vec<u64>>, String>(r)) ==> answers(f, b@, r@)
}

/// The caller says of each node which place it has.
pub open spec fn gives_places<P: Fn(u64) -> usize>(place: P, at: spec_fn(u64) -> usize) -> bool {
    &&& forall|id: u64| #[trigger] call_requires(place, (id,))
    &&& forall|id: u64, r: usize| #[trigger] call_ensures(place, (id,), r) ==> r == at(id)
}

/// Asked where the edges of these nodes lead, the caller may say that it cannot tell,
/// and why.
pub open spec fn refuses<E: Fn(Vec<u64>) -> Result<Vec<Vec<u64>>, String>>(
    edges: E,
    ids: Seq<u64>,
    e: String,
) -> bool {
    exists|b: Vec<u64>| #[trigger]
        call_ensures(edges, (b,), Err::<Vec<Vec<u64>>, String>(e)) && b@ == ids
}

/// Asked where the edges of these nodes lead, the caller can tell.
pub open spec fn is_told<E: Fn(Vec<u64>) -> Result<Vec<Vec<u64>>, String>>(
    edges: E,
    ids: Seq<u64>,
) -> bool {
    exists|b: Vec<u64>, v: Vec<Vec<u64>>| #[trigger]
        call_ensures(edges, (b,), Ok::<Vec<Vec<u64>>, String>(v)) && b@ == ids
}

/// The lists are where the edges of the nodes lead.
pub open spec fn answers(f: Field, ids: Seq<u64>, lists: Seq<Vec<u64>>) -> bool {
    &&& lists.len() == ids.len()
    &&& forall|i: int| 0 <= i < ids.len() ==> (#[trigger] lists[i])@ == (f.edges)(ids[i])
}

/// Nodes in the order of their places.
fn sort_by_place<P: Fn(u64) -> usize>(
    v: Vec<u64>,
    place: &P,
    at: Ghost<spec_fn(u64) -> usize>,
) -> (r: Vec<u64>)
    requires
        gives_places(*place, at@),
    ensures
        r@ == walk::by_place(v@, at@),
        r@.len() == v@.len(),
        walk::places_ascend(r@, at@),
{
    let mut r: Vec<u64> = Vec::new();
    let mut i: usize = 0;
    assert(v@.take(0) =~= Seq::empty());
    while i < v.len()
        invariant
            i <= v@.len(),
            r@ == walk::by_place(v@.take(i as int), at@),
            gives_places(*place, at@),
        decreases v@.len() - i,
    {
        let x: u64 = v[i];
        assert(v@.take(i + 1).drop_last() =~= v@.take(i as int));
        let mut p: usize = r.len();
        let here: usize = place(x);
        let mut go: bool = p > 0 && here < place(r[p - 1]);
        while go
            invariant
                p <= r@.len(),
                here == at@(x),
                gives_places(*place, at@),
                go ==> p > 0 && here < at@(r@[p - 1]),
                !go && p > 0 ==> at@(r@[p - 1]) <= here,
                forall|k: int| p <= k < r@.len() ==> here < at@(#[trigger] r@[k]),
            decreases p, steps_of(go),
        {
            p = p - 1;
            go = p > 0 && here < place(r[p - 1]);
        }
        proof {
            walk::lemma_insert_by_place(r@, x, at@, p as int);
        }
        r.insert(p, x);
        i = i + 1;
    }
    proof {
        assert(v@.take(i as int) =~= v@);
        walk::lemma_by_place(v@, at@);
    }
    r
}

impl Beam {
    /// Up to `width` nodes to be expanded at once, the nearest first.
    fn next_batch(&mut self, width: usize) -> (r: Vec<u64>)
        requires
            old(self).wf(),
        ensures
            final(self).wf(),
            final(self).width() == old(self).width(),
            r@ == walk::next_of(old(self).walk(), width as nat).0,
            final(self).walk() == walk::next_of(old(self).walk(), width as nat).1,
    {
        let ghost whole = walk::next_of(self.walk(), width as nat);
        let mut batch: Vec<u64> = Vec::new();
        let mut more: bool = true;
        assert(batch@ + whole.0 =~= whole.0);
        while more && batch.len() < width
            invariant
                batch@.len() <= width,
                self.wf(),
                self.width() == old(self).width(),
                more ==> whole.0 == batch@ + walk::next_of(
                    self.walk(),
                    (width - batch@.len()) as nat,
                ).0 && whole.1 == walk::next_of(self.walk(), (width - batch@.len()) as nat).1,
                !more ==> whole.0 == batch@ && whole.1 == self.walk(),
            decreases width - batch@.len(), steps_of(more),
        {
            let ghost w = self.walk();
            let ghost n = (width - batch@.len()) as nat;
            let ghost before = batch@;
            match self.next() {
                Some(id) => {
                    batch.push(id);
                    proof {
                        let rest = walk::next_of(walk::popped(w), (n - 1) as nat);
                        assert(before + (seq![id] + rest.0) =~= batch@ + rest.0);
                    }
                },
                None => {
                    more = false;
                    assert(before + Seq::<u64>::empty() =~= before);
                },
            }
        }
        assert(batch@ + Seq::<u64>::empty() =~= batch@);
        batch
    }
}

/// One where there may be more.
spec fn steps_of(more: bool) -> nat {
    if more {
        1
    } else {
        0
    }
}

/// A beam search that expands up to `width` nodes at once, in the order of their
/// places: asked where the edges of just those nodes lead, the caller may refuse,
/// and that ends the search.
pub fn search_batched<D, L, E, P>(
    dist: &D,
    live: &L,
    edges: &E,
    place: &P,
    start: u64,
    width: usize,
    ef: usize,
    f: Ghost<Field>,
    at: Ghost<spec_fn(u64) -> usize>,
) -> (r: Result<Vec<u64>, String>) where
    D: Fn(u64) -> u32,
    L: Fn(u64) -> bool,
    E: Fn(Vec<u64>) -> Result<Vec<Vec<u64>>, String>,
    P: Fn(u64) -> usize,

    requires
        gives_places(*place, at@),
        describes_batches(*dist, *live, *edges, f@),
        f@.live.finite(),
        f@.seeds == seq![start],
    ensures
        match r {
            Ok(v) => {
                &&& v@ == walk::found_by(
                    f@,
                    (Pace { ef: ef as nat, width: width as nat, place: at@ }),
                )
                &&& forall|ids: Seq<u64>| #[trigger]
                    walk::expands(
                        f@,
                        walk::started(f@, ef as nat),
                        (Pace { ef: ef as nat, width: width as nat, place: at@ }),
                        ids,
                    ) ==> is_told(*edges, ids)
            },
            Err(e) => exists|ids: Seq<u64>| #[trigger]
                walk::expands(
                    f@,
                    walk::started(f@, ef as nat),
                    (Pace { ef: ef as nat, width: width as nat, place: at@ }),
                    ids,
                ) && refuses(*edges, ids, e),
        },
{
    let ghost p = Pace { ef: ef as nat, width: width as nat, place: at@ };
    let ghost begin = walk::started(f@, ef as nat);
    let ghost end = walk::walked(f@, begin, p);
    let mut b = Beam::new(ef);
    let mut entry: Vec<u64> = Vec::new();
    entry.push(start);
    assert(entry@ =~= seq![start]);
    offer_all(&mut b, entry.as_slice(), dist, live, f);
    let ghost mut w = b.walk();
    let mut batch = b.next_batch(width);
    while batch.len() > 0
        invariant
            gives_places(*place, at@),
            describes_batches(*dist, *live, *edges, f@),
            f@.live.finite(),
            b.wf(),
            b.width() == ef,
            p == (Pace { ef: ef as nat, width: width as nat, place: at@ }),
            begin == walk::started(f@, ef as nat),
            batch@ == walk::next_of(w, p.width).0,
            b.walk() == walk::next_of(w, p.width).1,
            walk::walked(f@, w, p) == end,
            forall|ids: Seq<u64>| #[trigger]
                walk::expands(f@, begin, p, ids) ==> is_told(*edges, ids) || walk::expands(f@, w, p, ids),
            forall|ids: Seq<u64>| #[trigger]
                walk::expands(f@, w, p, ids) ==> walk::expands(f@, begin, p, ids),
        decreases walk::left(f@, w), w.cands.len(),
    {
        let ids = sort_by_place(batch, place, at);
        let ghost bs = ids@;
        assert(bs == walk::batch_of(w, p));
        assert(walk::expands(f@, w, p, bs));
        let n: usize = ids.len();
        let asked = copy_numbers(ids.as_slice());
        let ghost asked_before = asked;
        let lists: Vec<Vec<u64>> = match edges(asked) {
            Ok(l) => l,
            Err(e) => {
                assert(call_ensures(*edges, (asked_before,), Err::<Vec<Vec<u64>>, String>(e)));
                assert(refuses(*edges, bs, e));
                return Err(e);
            },
        };
        assert(answers(f@, bs, lists@));
        assert(is_told(*edges, bs)) by {
            assert(call_ensures(*edges, (asked_before,), Ok::<Vec<Vec<u64>>, String>(lists)));
        }
        let ghost v = b.walk();
        let mut i: usize = 0;
        assert(bs.take(0) =~= Seq::empty());
        while i < n
            invariant
                i <= n,
                n == bs.len(),
                n == lists@.len(),
                answers(f@, bs, lists@),
                describes_batches(*dist, *live, *edges, f@),
                b.wf(),
                b.width() == ef,
                b.walk() == walk::expanded_all(f@, v, bs.take(i as int), ef as nat),
            decreases n - i,
        {
            let nbs = &lists[i];
            assert(nbs@ == (f@.edges)(bs[i as int]));
            assert(bs.take(i + 1).drop_last() =~= bs.take(i as int));
            assert(bs.take(i + 1).last() == bs[i as int]);
            offer_all(&mut b, nbs.as_slice(), dist, live, f);
            i = i + 1;
        }
        proof {
            assert(bs.take(i as int) =~= bs);
            walk::lemma_stepped_shrinks(f@, w, p);
            assert(b.walk() == walk::stepped(f@, w, p));
            assert forall|ids: Seq<u64>| #[trigger] walk::expands(f@, b.walk(), p, ids) implies walk::expands(
                f@,
                begin,
                p,
                ids,
            ) by {
                assert(walk::expands(f@, w, p, ids));
            }
            w = b.walk();
        }
        batch = b.next_batch(width);
    }
    proof {
        walk::lemma_next_shrinks(w, p.width);
    }
    Ok(b.finish())
}

/// An owned copy of numbers.
pub fn copy_numbers(v: &[u64]) -> (r: Vec<u64>)
    ensures
        r@ == v@,
{
    let mut r: Vec<u64> = Vec::new();
    let mut i: usize = 0;
    while i < v.len()
        invariant
            i <= v@.len(),
            r@ == v@.take(i as int),
        decreases v@.len() - i,
    {
        r.push(v[i]);
        assert(v@.take(i + 1) =~= v@.take(i as int).push(v@[i as int]));
        i = i + 1;
    }
    assert(r@ =~= v@);
    r
}

} // verus!
