//! How a beam search goes: step by step from some nodes on, along edges, towards those
//! that are nearest to a query; and what it finds.
use vstd::prelude::*;

verus! {

/// A node and the rank of its distance from the query.
#[derive(Debug, Clone, Copy, PartialEq, Eq, Structural)]
pub struct Near {
    pub rank: u32,
    pub id: u64,
}

/// Nodes are ordered by distance, then by number.
pub open spec fn near_lt(a: Near, b: Near) -> bool {
    a.rank < b.rank || (a.rank == b.rank && a.id < b.id)
}

/// What is searched: how far each node is from the query, which nodes count,
/// where the edges of a node lead, and where the search begins.
pub ghost struct Field {
    pub rank: spec_fn(u64) -> u32,
    pub live: Set<u64>,
    pub edges: spec_fn(u64) -> Seq<u64>,
    pub seeds: Seq<u64>,
}

/// How wide a search is: how many nodes it finds at most, how many it expands at
/// once, and in what order it does so.
pub ghost struct Pace {
    pub ef: nat,
    pub width: nat,
    pub place: spec_fn(u64) -> usize,
}

/// A search that expands one node at a time.
pub open spec fn one_by_one(ef: nat) -> Pace {
    Pace { ef, width: 1, place: |id: u64| 0usize }
}

// ----------------------------------------------------------------------
// How a search goes
// ----------------------------------------------------------------------
/// A search under way: what is still to be expanded, the farthest first; the
/// best so far, the nearest first; and what was seen.
#[verifier::ext_equal]
pub ghost struct Walk {
    pub cands: Seq<Near>,
    pub best: Seq<Near>,
    pub seen: Set<u64>,
}

/// A node put in its place among others, the nearest first.
pub open spec fn with_near(v: Seq<Near>, n: Near) -> Seq<Near>
    decreases v.len(),
{
    if v.len() > 0 && near_lt(n, v.last()) {
        with_near(v.drop_last(), n).push(v.last())
    } else {
        v.push(n)
    }
}

/// A node put in its place among others, the farthest first.
pub open spec fn with_far(v: Seq<Near>, n: Near) -> Seq<Near>
    decreases v.len(),
{
    if v.len() > 0 && near_lt(v.last(), n) {
        with_far(v.drop_last(), n).push(v.last())
    } else {
        v.push(n)
    }
}

/// The search after it has come upon a node that counts: it is taken in while there
/// are fewer than `ef`, or where it is nearer than the farthest of the best, which
/// then makes way for it.
pub open spec fn taken(w: Walk, n: Near, ef: nat) -> Walk {
    let seen = w.seen.insert(n.id);
    if w.best.len() == 0 || n.rank < w.best.last().rank || w.best.len() < ef {
        let best = with_near(w.best, n);
        Walk {
            cands: with_far(w.cands, n),
            best: if best.len() > ef {
                best.drop_last()
            } else {
                best
            },
            seen,
        }
    } else {
        Walk { seen, ..w }
    }
}

/// The search after it has come upon a node, whether it has seen it before or not.
pub open spec fn offered(f: Field, w: Walk, id: u64, ef: nat) -> Walk {
    if w.seen.contains(id) {
        w
    } else if f.live.contains(id) {
        taken(w, Near { rank: (f.rank)(id), id }, ef)
    } else {
        Walk { seen: w.seen.insert(id), ..w }
    }
}

/// The search after it has come upon nodes, one after the other.
pub open spec fn offered_all(f: Field, w: Walk, ids: Seq<u64>, ef: nat) -> Walk
    decreases ids.len(),
{
    if ids.len() == 0 {
        w
    } else {
        offered(f, offered_all(f, w, ids.drop_last(), ef), ids.last(), ef)
    }
}

/// The search after it has expanded nodes, one after the other: it comes upon all
/// that their edges lead to.
pub open spec fn expanded_all(f: Field, w: Walk, ids: Seq<u64>, ef: nat) -> Walk
    decreases ids.len(),
{
    if ids.len() == 0 {
        w
    } else {
        offered_all(
            f,
            expanded_all(f, w, ids.drop_last(), ef),
            (f.edges)(ids.last()),
            ef,
        )
    }
}

/// The nearest node that is still to be expanded is farther than the best so far.
pub open spec fn is_far(w: Walk) -> bool {
    w.best.len() > 0 && w.cands.last().rank > w.best.last().rank
}

/// The search without the nearest node that is still to be expanded.
pub open spec fn popped(w: Walk) -> Walk {
    Walk { cands: w.cands.drop_last(), ..w }
}

/// The nodes that are expanded next, the nearest first, up to `width` of them, and
/// the search without them. It looks no further than to the first that is far.
pub open spec fn next_of(w: Walk, width: nat) -> (Seq<u64>, Walk)
    decreases width,
{
    if width == 0 || w.cands.len() == 0 {
        (Seq::empty(), w)
    } else if is_far(w) {
        (Seq::empty(), popped(w))
    } else {
        let rest = next_of(popped(w), (width - 1) as nat);
        (seq![w.cands.last().id] + rest.0, rest.1)
    }
}

/// A node put behind those whose place is not behind its own.
pub open spec fn insert_by_place(v: Seq<u64>, id: u64, place: spec_fn(u64) -> usize) -> Seq<u64>
    decreases v.len(),
{
    if v.len() > 0 && place(id) < place(v.last()) {
        insert_by_place(v.drop_last(), id, place).push(v.last())
    } else {
        v.push(id)
    }
}

/// Nodes in the order of their places.
pub open spec fn by_place(v: Seq<u64>, place: spec_fn(u64) -> usize) -> Seq<u64>
    decreases v.len(),
{
    if v.len() == 0 {
        Seq::empty()
    } else {
        insert_by_place(by_place(v.drop_last(), place), v.last(), place)
    }
}

/// The nodes that are expanded next, in the order in which they are.
pub open spec fn batch_of(w: Walk, p: Pace) -> Seq<u64> {
    by_place(next_of(w, p.width).0, p.place)
}

/// The search after the next nodes were expanded.
pub open spec fn stepped(f: Field, w: Walk, p: Pace) -> Walk {
    expanded_all(f, next_of(w, p.width).1, batch_of(w, p), p.ef)
}

/// How many nodes that count were not seen.
pub open spec fn left(f: Field, w: Walk) -> nat {
    f.live.difference(w.seen).len()
}

/// The search at its end: it goes on until there is no node to be expanded that
/// could lead to a nearer one.
pub open spec fn walked(f: Field, w: Walk, p: Pace) -> Walk
    decreases left(f, w), w.cands.len(),
    when f.live.finite()
    via walk_ends
{
    if next_of(w, p.width).0.len() == 0 {
        w
    } else {
        walked(f, stepped(f, w, p), p)
    }
}

#[via_fn]
proof fn walk_ends(f: Field, w: Walk, p: Pace) {
    if next_of(w, p.width).0.len() > 0 {
        lemma_stepped_shrinks(f, w, p);
    }
}

/// The search before it has come upon anything.
pub open spec fn nothing() -> Walk {
    Walk { cands: Seq::empty(), best: Seq::empty(), seen: Set::empty() }
}

/// The search as it begins: it has come upon the seeds.
pub open spec fn started(f: Field, ef: nat) -> Walk {
    offered_all(f, nothing(), f.seeds, ef)
}

/// What a search finds, the nearest first.
pub open spec fn found_by(f: Field, p: Pace) -> Seq<u64> {
    ids(walked(f, started(f, p.ef), p).best)
}

/// What a search of width `ef` finds that expands one node at a time, the nearest
/// first.
pub open spec fn found(f: Field, ef: nat) -> Seq<u64> {
    found_by(f, one_by_one(ef))
}

/// The search expands these nodes at once at some time, from `w` on.
pub open spec fn expands(f: Field, w: Walk, p: Pace, ids: Seq<u64>) -> bool
    decreases left(f, w), w.cands.len(),
    when f.live.finite()
    via expanding_ends
{
    next_of(w, p.width).0.len() > 0 && (ids == batch_of(w, p) || expands(
        f,
        stepped(f, w, p),
        p,
        ids,
    ))
}

#[via_fn]
proof fn expanding_ends(f: Field, w: Walk, p: Pace, ids: Seq<u64>) {
    if next_of(w, p.width).0.len() > 0 {
        lemma_stepped_shrinks(f, w, p);
    }
}

/// The numbers of nodes.
pub open spec fn ids(v: Seq<Near>) -> Seq<u64> {
    v.map_values(|n: Near| n.id)
}

/// The nodes hold this one.
pub open spec fn has_id(v: Seq<Near>, id: u64) -> bool {
    exists|i: int| 0 <= i < v.len() && (#[trigger] v[i]).id == id
}

// ----------------------------------------------------------------------
// A search comes to an end
// ----------------------------------------------------------------------
proof fn lemma_offered_shrinks(f: Field, w: Walk, id: u64, ef: nat)
    requires
        f.live.finite(),
    ensures
        left(f, offered(f, w, id, ef)) <= left(f, w),
        left(f, offered(f, w, id, ef)) == left(f, w) ==> offered(f, w, id, ef).cands == w.cands,
        w.seen.subset_of(offered(f, w, id, ef).seen),
        offered(f, w, id, ef).seen.contains(id),
{
    let v = offered(f, w, id, ef);
    let before = f.live.difference(w.seen);
    if !w.seen.contains(id) {
        assert(v.seen == w.seen.insert(id));
        if f.live.contains(id) {
            assert(f.live.difference(v.seen) =~= before.remove(id));
        } else {
            assert(f.live.difference(v.seen) =~= before);
        }
    }
}

pub(crate) proof fn lemma_offered_all_shrinks(f: Field, w: Walk, ids: Seq<u64>, ef: nat)
    requires
        f.live.finite(),
    ensures
        left(f, offered_all(f, w, ids, ef)) <= left(f, w),
        left(f, offered_all(f, w, ids, ef)) == left(f, w) ==> offered_all(f, w, ids, ef).cands
            == w.cands,
    decreases ids.len(),
{
    if ids.len() > 0 {
        lemma_offered_all_shrinks(f, w, ids.drop_last(), ef);
        lemma_offered_shrinks(f, offered_all(f, w, ids.drop_last(), ef), ids.last(), ef);
    }
}

proof fn lemma_expanded_all_shrinks(f: Field, w: Walk, ids: Seq<u64>, ef: nat)
    requires
        f.live.finite(),
    ensures
        left(f, expanded_all(f, w, ids, ef)) <= left(f, w),
        left(f, expanded_all(f, w, ids, ef)) == left(f, w) ==> expanded_all(f, w, ids, ef).cands
            == w.cands,
    decreases ids.len(),
{
    if ids.len() > 0 {
        let front = expanded_all(f, w, ids.drop_last(), ef);
        lemma_expanded_all_shrinks(f, w, ids.drop_last(), ef);
        lemma_offered_all_shrinks(f, front, (f.edges)(ids.last()), ef);
    }
}

pub(crate) proof fn lemma_next_shrinks(w: Walk, width: nat)
    ensures
        next_of(w, width).1.seen == w.seen,
        next_of(w, width).1.best == w.best,
        next_of(w, width).1.cands.len() + next_of(w, width).0.len() <= w.cands.len(),
        next_of(w, width).0.len() <= width,
    decreases width,
{
    if width > 0 && w.cands.len() > 0 && !is_far(w) {
        lemma_next_shrinks(popped(w), (width - 1) as nat);
    }
}

pub(crate) proof fn lemma_stepped_shrinks(f: Field, w: Walk, p: Pace)
    requires
        f.live.finite(),
        next_of(w, p.width).0.len() > 0,
    ensures
        left(f, stepped(f, w, p)) <= left(f, w),
        left(f, stepped(f, w, p)) == left(f, w) ==> stepped(f, w, p).cands.len() < w.cands.len(),
{
    lemma_next_shrinks(w, p.width);
    lemma_expanded_all_shrinks(f, next_of(w, p.width).1, batch_of(w, p), p.ef);
}

// ----------------------------------------------------------------------
// Lists in order
// ----------------------------------------------------------------------
/// The nearest comes first.
pub open spec fn rising(v: Seq<Near>) -> bool {
    forall|i: int, j: int| 0 <= i < j < v.len() ==> near_lt(#[trigger] v[i], #[trigger] v[j])
}

/// The farthest comes first.
pub open spec fn falling(v: Seq<Near>) -> bool {
    forall|i: int, j: int| 0 <= i < j < v.len() ==> near_lt(#[trigger] v[j], #[trigger] v[i])
}

/// Putting a node in its place is inserting it.
pub(crate) proof fn lemma_with_near(v: Seq<Near>, n: Near) -> (p: int)
    requires
        rising(v),
        !has_id(v, n.id),
    ensures
        0 <= p <= v.len(),
        with_near(v, n) == v.insert(p, n),
        forall|i: int| 0 <= i < p ==> near_lt(#[trigger] v[i], n),
        forall|i: int| p <= i < v.len() ==> near_lt(n, #[trigger] v[i]),
        rising(with_near(v, n)),
    decreases v.len(),
{
    let out = with_near(v, n);
    let p = if v.len() > 0 && near_lt(n, v.last()) {
        let front = v.drop_last();
        assert(!has_id(front, n.id)) by {
            if has_id(front, n.id) {
                let i = choose|i: int| 0 <= i < front.len() && (#[trigger] front[i]).id == n.id;
                assert(v[i].id == n.id);
            }
        }
        let p = lemma_with_near(front, n);
        assert forall|i: int| 0 <= i < p implies near_lt(#[trigger] v[i], n) by {
            assert(v[i] == front[i]);
        }
        assert forall|i: int| p <= i < v.len() implies near_lt(n, #[trigger] v[i]) by {
            if i < v.len() - 1 {
                assert(v[i] == front[i]);
            }
        }
        assert(out =~= v.insert(p, n));
        p
    } else {
        assert(out =~= v.insert(v.len() as int, n));
        if v.len() > 0 {
            assert(v[v.len() - 1].id != n.id);
            assert(near_lt(v[v.len() - 1], n));
        }
        v.len() as int
    };
    assert forall|i: int, j: int| 0 <= i < j < out.len() implies near_lt(
        #[trigger] out[i],
        #[trigger] out[j],
    ) by {
        let a = if i < p {
            i
        } else {
            i - 1
        };
        let b = if j < p {
            j
        } else {
            j - 1
        };
        if i == p {
            assert(out[j] == v[b]);
        } else if j == p {
            assert(out[i] == v[a]);
        } else {
            assert(out[i] == v[a] && out[j] == v[b]);
        }
    }
    p
}

/// Putting a node in its place is inserting it.
pub(crate) proof fn lemma_with_far(v: Seq<Near>, n: Near) -> (p: int)
    requires
        falling(v),
        !has_id(v, n.id),
    ensures
        0 <= p <= v.len(),
        with_far(v, n) == v.insert(p, n),
        forall|i: int| 0 <= i < p ==> near_lt(n, #[trigger] v[i]),
        forall|i: int| p <= i < v.len() ==> near_lt(#[trigger] v[i], n),
        falling(with_far(v, n)),
    decreases v.len(),
{
    let out = with_far(v, n);
    let p = if v.len() > 0 && near_lt(v.last(), n) {
        let front = v.drop_last();
        assert(!has_id(front, n.id)) by {
            if has_id(front, n.id) {
                let i = choose|i: int| 0 <= i < front.len() && (#[trigger] front[i]).id == n.id;
                assert(v[i].id == n.id);
            }
        }
        let p = lemma_with_far(front, n);
        assert forall|i: int| 0 <= i < p implies near_lt(n, #[trigger] v[i]) by {
            assert(v[i] == front[i]);
        }
        assert forall|i: int| p <= i < v.len() implies near_lt(#[trigger] v[i], n) by {
            if i < v.len() - 1 {
                assert(v[i] == front[i]);
            }
        }
        assert(out =~= v.insert(p, n));
        p
    } else {
        assert(out =~= v.insert(v.len() as int, n));
        if v.len() > 0 {
            assert(v[v.len() - 1].id != n.id);
            assert(near_lt(n, v[v.len() - 1]));
        }
        v.len() as int
    };
    assert forall|i: int, j: int| 0 <= i < j < out.len() implies near_lt(
        #[trigger] out[j],
        #[trigger] out[i],
    ) by {
        let a = if i < p {
            i
        } else {
            i - 1
        };
        let b = if j < p {
            j
        } else {
            j - 1
        };
        if i == p {
            assert(out[j] == v[b]);
        } else if j == p {
            assert(out[i] == v[a]);
        } else {
            assert(out[i] == v[a] && out[j] == v[b]);
        }
    }
    p
}

/// What is in a sequence with one item more.
proof fn lemma_insert_has(v: Seq<Near>, p: int, n: Near)
    requires
        0 <= p <= v.len(),
    ensures
        forall|id: u64| #[trigger] has_id(v.insert(p, n), id) <==> has_id(v, id) || id == n.id,
        forall|i: int|
            0 <= i < v.insert(p, n).len() ==> (#[trigger] v.insert(p, n)[i] == n || exists|j: int|
                0 <= j < v.len() && #[trigger] v[j] == v.insert(p, n)[i]),
{
    let w = v.insert(p, n);
    assert(w[p] == n);
    assert forall|id: u64| #[trigger] has_id(w, id) <==> has_id(v, id) || id == n.id by {
        if has_id(v, id) {
            let i = choose|i: int| 0 <= i < v.len() && (#[trigger] v[i]).id == id;
            if i < p {
                assert(w[i] == v[i]);
            } else {
                assert(w[i + 1] == v[i]);
            }
        }
        if id == n.id {
            assert(w[p].id == id);
        }
        if has_id(w, id) && id != n.id {
            let i = choose|i: int| 0 <= i < w.len() && (#[trigger] w[i]).id == id;
            if i < p {
                assert(v[i] == w[i]);
            } else {
                assert(v[i - 1] == w[i]);
            }
        }
    }
    assert forall|i: int| 0 <= i < w.len() implies (#[trigger] w[i] == n || exists|j: int|
        0 <= j < v.len() && #[trigger] v[j] == w[i]) by {
        if i < p {
            assert(v[i] == w[i]);
        } else if i > p {
            assert(v[i - 1] == w[i]);
        }
    }
}

/// The lists are in order, and what is in them was seen.
pub open spec fn tidy(w: Walk) -> bool {
    &&& rising(w.best)
    &&& falling(w.cands)
    &&& forall|i: int| 0 <= i < w.best.len() ==> w.seen.contains((#[trigger] w.best[i]).id)
    &&& forall|i: int| 0 <= i < w.cands.len() ==> w.seen.contains((#[trigger] w.cands[i]).id)
}

/// A node that was not seen is in neither list.
pub(crate) proof fn lemma_unseen(w: Walk, id: u64)
    requires
        tidy(w),
        !w.seen.contains(id),
    ensures
        !has_id(w.best, id),
        !has_id(w.cands, id),
{
}

pub(crate) proof fn lemma_taken_tidy(w: Walk, n: Near, ef: nat)
    requires
        tidy(w),
        !w.seen.contains(n.id),
    ensures
        tidy(taken(w, n, ef)),
{
    lemma_unseen(w, n.id);
    let p = lemma_with_near(w.best, n);
    let q = lemma_with_far(w.cands, n);
    lemma_insert_has(w.best, p, n);
    lemma_insert_has(w.cands, q, n);
    let v = taken(w, n, ef);
    assert forall|i: int| 0 <= i < v.best.len() implies v.seen.contains(
        (#[trigger] v.best[i]).id,
    ) by {
        if v.cands != w.cands || v.best != w.best {
            assert(v.best[i] == with_near(w.best, n)[i]);
            if v.best[i] != n {
                let j = choose|j: int| 0 <= j < w.best.len() && #[trigger] w.best[j] == v.best[i];
                assert(w.seen.contains(w.best[j].id));
            }
        }
    }
    assert forall|i: int| 0 <= i < v.cands.len() implies v.seen.contains(
        (#[trigger] v.cands[i]).id,
    ) by {
        if v.cands != w.cands {
            if v.cands[i] != n {
                let j = choose|j: int| 0 <= j < w.cands.len() && #[trigger] w.cands[j] == v.cands[i];
                assert(w.seen.contains(w.cands[j].id));
            }
        }
    }
}

/// One step of a search that expands one node at a time.
pub(crate) proof fn lemma_one_by_one(f: Field, w: Walk, ef: nat)
    ensures
        w.cands.len() == 0 || is_far(w) ==> next_of(w, 1).0.len() == 0,
        w.cands.len() > 0 && !is_far(w) ==> next_of(w, 1).0.len() > 0 && stepped(
            f,
            w,
            one_by_one(ef),
        ) == offered_all(f, popped(w), (f.edges)(w.cands.last().id), ef),
{
    reveal_with_fuel(next_of, 2);
    if w.cands.len() > 0 && !is_far(w) {
        let p = one_by_one(ef);
        let id = w.cands.last().id;
        assert(next_of(w, 1).0 =~= seq![id]);
        assert(next_of(w, 1).1 == popped(w));
        reveal_with_fuel(by_place, 2);
        assert(seq![id].drop_last() =~= Seq::empty());
        assert(batch_of(w, p) =~= seq![id]);
        reveal_with_fuel(expanded_all, 2);
    }
}

// ----------------------------------------------------------------------
// Nodes in the order of their places
// ----------------------------------------------------------------------
/// The places do not go back.
pub open spec fn places_ascend(v: Seq<u64>, place: spec_fn(u64) -> usize) -> bool {
    forall|i: int, j: int|
        0 <= i < j < v.len() ==> place(#[trigger] v[i]) <= place(#[trigger] v[j])
}

/// Putting a node in its place is inserting it.
pub(crate) proof fn lemma_insert_by_place(v: Seq<u64>, id: u64, place: spec_fn(u64) -> usize, p: int)
    requires
        0 <= p <= v.len(),
        p > 0 ==> place(v[p - 1]) <= place(id),
        forall|i: int| p <= i < v.len() ==> place(id) < place(#[trigger] v[i]),
    ensures
        insert_by_place(v, id, place) == v.insert(p, id),
    decreases v.len(),
{
    if p < v.len() {
        assert(place(id) < place(v[v.len() - 1]));
        assert forall|i: int| p <= i < v.drop_last().len() implies place(id) < place(
            #[trigger] v.drop_last()[i],
        ) by {
            assert(v.drop_last()[i] == v[i]);
        }
        lemma_insert_by_place(v.drop_last(), id, place, p);
        assert(v.drop_last().insert(p, id).push(v.last()) =~= v.insert(p, id));
    } else {
        assert(v.push(id) =~= v.insert(p, id));
    }
}

/// Nodes in the order of their places are the same nodes, and their places do not go
/// back.
pub proof fn lemma_by_place(v: Seq<u64>, place: spec_fn(u64) -> usize)
    ensures
        by_place(v, place).to_multiset() == v.to_multiset(),
        by_place(v, place).len() == v.len(),
        places_ascend(by_place(v, place), place),
    decreases v.len(),
{
    broadcast use vstd::seq_lib::group_to_multiset_ensures;

    if v.len() > 0 {
        let front = by_place(v.drop_last(), place);
        lemma_by_place(v.drop_last(), place);
        lemma_inserted_by_place(front, v.last(), place);
        assert(v =~= v.drop_last().push(v.last()));
    }
}

proof fn lemma_inserted_by_place(v: Seq<u64>, id: u64, place: spec_fn(u64) -> usize)
    requires
        places_ascend(v, place),
    ensures
        insert_by_place(v, id, place).to_multiset() == v.to_multiset().insert(id),
        insert_by_place(v, id, place).len() == v.len() + 1,
        places_ascend(insert_by_place(v, id, place), place),
        forall|i: int|
            0 <= i < insert_by_place(v, id, place).len() ==> (#[trigger] insert_by_place(
                v,
                id,
                place,
            )[i]) == id || v.contains(insert_by_place(v, id, place)[i]),
    decreases v.len(),
{
    broadcast use vstd::seq_lib::group_to_multiset_ensures;

    let out = insert_by_place(v, id, place);
    if v.len() > 0 && place(id) < place(v.last()) {
        let front = v.drop_last();
        let last = v[v.len() - 1];
        assert forall|i: int, j: int| 0 <= i < j < front.len() implies place(#[trigger] front[i])
            <= place(#[trigger] front[j]) by {
            assert(front[i] == v[i] && front[j] == v[j]);
        }
        lemma_inserted_by_place(front, id, place);
        let inner = insert_by_place(front, id, place);
        assert(v =~= front.push(last));
        assert(out.to_multiset() =~= v.to_multiset().insert(id));
        assert forall|i: int| 0 <= i < out.len() implies (#[trigger] out[i]) == id || v.contains(
            out[i],
        ) by {
            if i < inner.len() {
                assert(out[i] == inner[i]);
                if inner[i] != id {
                    let k = choose|k: int| 0 <= k < front.len() && front[k] == inner[i];
                    assert(v[k] == out[i]);
                }
            } else {
                assert(v[v.len() - 1] == out[i]);
            }
        }
        assert forall|i: int, j: int| 0 <= i < j < out.len() implies place(#[trigger] out[i])
            <= place(#[trigger] out[j]) by {
            assert(out[i] == inner[i]);
            if j < inner.len() {
                assert(out[j] == inner[j]);
            } else if inner[i] != id {
                let k = choose|k: int| 0 <= k < front.len() && front[k] == inner[i];
                assert(place(v[k]) <= place(v[v.len() - 1]));
            }
        }
    } else {
        assert forall|i: int| 0 <= i < out.len() implies (#[trigger] out[i]) == id || v.contains(
            out[i],
        ) by {
            if i < v.len() {
                assert(v[i] == out[i]);
            }
        }
        assert forall|i: int, j: int| 0 <= i < j < out.len() implies place(#[trigger] out[i])
            <= place(#[trigger] out[j]) by {
            assert(out[i] == v[i]);
            if j < v.len() {
                assert(out[j] == v[j]);
            } else if i < v.len() - 1 {
                assert(place(v[i]) <= place(v[v.len() - 1]));
            }
        }
    }
}

// ----------------------------------------------------------------------
// What a search finds
// ----------------------------------------------------------------------
/// A path of nodes that count, from one of the seeds to the node.
pub open spec fn is_path(f: Field, path: Seq<u64>, id: u64) -> bool {
    &&& path.len() > 0
    &&& f.seeds.contains(path[0])
    &&& path.last() == id
    &&& forall|i: int| 0 <= i < path.len() ==> f.live.contains(#[trigger] path[i])
    &&& forall|i: int|
        0 <= i < path.len() - 1 ==> (f.edges)(#[trigger] path[i]).contains(path[i + 1])
}

/// The search can come to the node.
pub open spec fn reachable(f: Field, id: u64) -> bool {
    exists|path: Seq<u64>| is_path(f, path, id)
}

/// One edge further.
proof fn lemma_reach_edge(f: Field, a: u64, b: u64)
    requires
        reachable(f, a),
        (f.edges)(a).contains(b),
        f.live.contains(b),
    ensures
        reachable(f, b),
{
    let path = choose|path: Seq<u64>| is_path(f, path, a);
    let more = path.push(b);
    assert forall|i: int| 0 <= i < more.len() - 1 implies (f.edges)(#[trigger] more[i]).contains(
        more[i + 1],
    ) by {
        if i < path.len() - 1 {
            assert(more[i] == path[i] && more[i + 1] == path[i + 1]);
        } else {
            assert(more[i] == path.last());
        }
    }
    assert(is_path(f, more, b));
}

/// Nodes that count and can be reached, each once, the nearest first, and no more
/// than `ef`; and of the seeds and the nodes that edges of these lead to, none is left
/// out that is nearer than the last of them, and none at all while there are fewer
/// than `ef`.
pub open spec fn is_beam(r: Seq<u64>, f: Field, ef: nat) -> bool {
    &&& r.no_duplicates()
    &&& r.len() <= ef
    &&& forall|i: int, j: int|
        0 <= i < j < r.len() ==> (f.rank)(#[trigger] r[i]) <= (f.rank)(#[trigger] r[j])
    &&& forall|i: int|
        0 <= i < r.len() ==> f.live.contains(#[trigger] r[i]) && reachable(f, r[i])
    &&& forall|v: u64| #[trigger]
        f.live.contains(v) && beside(r, f, v) && !r.contains(v) ==> r.len() >= ef && (r.len() > 0
            ==> (f.rank)(v) >= (f.rank)(r.last()))
}

/// The node is a seed, or an edge of one of these leads to it.
pub open spec fn beside(r: Seq<u64>, f: Field, v: u64) -> bool {
    f.seeds.contains(v) || exists|i: int| 0 <= i < r.len() && (f.edges)(#[trigger] r[i]).contains(v)
}

/// A node of the field that was seen.
spec fn known(f: Field, seen: Set<u64>, n: Near) -> bool {
    n.rank == (f.rank)(n.id) && f.live.contains(n.id) && seen.contains(n.id) && reachable(f, n.id)
}

/// How the parts of a search hang together. What counts and was seen is among the
/// best, or they are full and nearer; the best were expanded, are to be expanded, or
/// are being expanded; and what the edges of expanded nodes lead to was seen.
spec fn sound(f: Field, w: Walk, ef: nat, expanded: Set<u64>, busy: Set<u64>) -> bool {
    &&& tidy(w)
    &&& w.best.len() <= ef
    &&& forall|i: int| 0 <= i < w.best.len() ==> known(f, w.seen, #[trigger] w.best[i])
    &&& forall|i: int| 0 <= i < w.cands.len() ==> known(f, w.seen, #[trigger] w.cands[i])
    &&& forall|v: u64| #[trigger]
        w.seen.contains(v) && f.live.contains(v) ==> has_id(w.best, v) || (w.best.len() >= ef
            && w.best.len() > 0 && (f.rank)(v) >= w.best.last().rank)
    &&& forall|i: int|
        0 <= i < w.best.len() ==> is_in_hand(w, expanded, busy, (#[trigger] w.best[i]).id)
    &&& forall|e: u64, v: u64|
        expanded.contains(e) && #[trigger] (f.edges)(e).contains(v) ==> w.seen.contains(v)
    &&& forall|b: u64| #[trigger] busy.contains(b) ==> reachable(f, b)
}

/// The node was expanded, is to be, or is being expanded.
spec fn is_in_hand(w: Walk, expanded: Set<u64>, busy: Set<u64>, id: u64) -> bool {
    expanded.contains(id) || has_id(w.cands, id) || busy.contains(id)
}

proof fn lemma_taken_sound(
    f: Field,
    w: Walk,
    n: Near,
    ef: nat,
    expanded: Set<u64>,
    busy: Set<u64>,
)
    requires
        sound(f, w, ef, expanded, busy),
        ef > 0,
        !w.seen.contains(n.id),
        f.live.contains(n.id),
        n.rank == (f.rank)(n.id),
        reachable(f, n.id),
    ensures
        sound(f, taken(w, n, ef), ef, expanded, busy),
{
    let t = taken(w, n, ef);
    lemma_taken_tidy(w, n, ef);
    lemma_unseen(w, n.id);
    let p = lemma_with_near(w.best, n);
    let q = lemma_with_far(w.cands, n);
    lemma_insert_has(w.best, p, n);
    lemma_insert_has(w.cands, q, n);
    let all = with_near(w.best, n);
    let m = w.best.len() as int;
    assert forall|v: u64| #[trigger] t.seen.contains(v) implies w.seen.contains(v) || v == n.id by {
    }
    if m == 0 || n.rank < w.best.last().rank || m < ef {
        assert(t.cands == with_far(w.cands, n));
        assert forall|i: int| 0 <= i < t.best.len() implies #[trigger] t.best[i] == all[i] by {}
        assert forall|i: int| 0 <= i < all.len() implies known(f, t.seen, #[trigger] all[i])
            && is_in_hand(t, expanded, busy, all[i].id) by {
            if all[i] != n {
                let j = choose|j: int| 0 <= j < w.best.len() && #[trigger] w.best[j] == all[i];
                assert(known(f, w.seen, w.best[j]));
                assert(is_in_hand(w, expanded, busy, w.best[j].id));
            } else {
                assert(has_id(t.cands, n.id));
            }
        }
        assert forall|i: int| 0 <= i < t.cands.len() implies known(
            f,
            t.seen,
            #[trigger] t.cands[i],
        ) by {
            if t.cands[i] != n {
                let j = choose|j: int| 0 <= j < w.cands.len() && #[trigger] w.cands[j] == t.cands[i];
                assert(known(f, w.seen, w.cands[j]));
            }
        }
        assert forall|v: u64| #[trigger] t.seen.contains(v) && f.live.contains(v) implies has_id(
            t.best,
            v,
        ) || (t.best.len() >= ef && t.best.len() > 0 && (f.rank)(v) >= t.best.last().rank) by {
            if all.len() > ef {
                assert(m == ef && all.len() == m + 1);
                assert(rising(all));
                assert(near_lt(all[m - 1], all[m]));
                assert(t.best.last() == all[m - 1]);
                if has_id(all, v) {
                    let i = choose|i: int| 0 <= i < all.len() && (#[trigger] all[i]).id == v;
                    if i < m {
                        assert(t.best[i].id == v);
                    } else {
                        assert(known(f, t.seen, all[i]));
                    }
                } else {
                    assert(w.seen.contains(v) && !has_id(w.best, v));
                    assert((f.rank)(v) >= w.best.last().rank);
                    assert(near_lt(n, w.best[m - 1]));
                    if p == m {
                        assert(near_lt(w.best[m - 1], n));
                    } else {
                        assert(all[m] == w.best[m - 1]);
                    }
                }
            } else {
                assert(t.best == all);
                if v != n.id && !has_id(w.best, v) {
                    assert(w.seen.contains(v));
                }
            }
        }
    } else {
        assert forall|i: int| 0 <= i < t.best.len() implies known(f, t.seen, #[trigger] t.best[i])
            && is_in_hand(t, expanded, busy, t.best[i].id) by {
            assert(known(f, w.seen, w.best[i]));
            assert(is_in_hand(w, expanded, busy, w.best[i].id));
        }
        assert forall|i: int| 0 <= i < t.cands.len() implies known(
            f,
            t.seen,
            #[trigger] t.cands[i],
        ) by {
            assert(known(f, w.seen, w.cands[i]));
        }
    }
}

proof fn lemma_offered_sound(
    f: Field,
    w: Walk,
    id: u64,
    ef: nat,
    expanded: Set<u64>,
    busy: Set<u64>,
)
    requires
        sound(f, w, ef, expanded, busy),
        ef > 0,
        f.live.contains(id) ==> reachable(f, id),
    ensures
        sound(f, offered(f, w, id, ef), ef, expanded, busy),
        offered(f, w, id, ef).seen == w.seen.insert(id),
{
    let t = offered(f, w, id, ef);
    if w.seen.contains(id) {
        assert(w.seen.insert(id) =~= w.seen);
    } else if f.live.contains(id) {
        lemma_taken_sound(f, w, Near { rank: (f.rank)(id), id }, ef, expanded, busy);
    } else {
        assert forall|i: int| 0 <= i < t.best.len() implies known(f, t.seen, #[trigger] t.best[i])
            && is_in_hand(t, expanded, busy, t.best[i].id) by {
            assert(known(f, w.seen, w.best[i]));
            assert(is_in_hand(w, expanded, busy, w.best[i].id));
        }
        assert forall|i: int| 0 <= i < t.cands.len() implies known(
            f,
            t.seen,
            #[trigger] t.cands[i],
        ) by {
            assert(known(f, w.seen, w.cands[i]));
        }
    }
}

proof fn lemma_offered_all_sound(
    f: Field,
    w: Walk,
    ids: Seq<u64>,
    ef: nat,
    expanded: Set<u64>,
    busy: Set<u64>,
)
    requires
        sound(f, w, ef, expanded, busy),
        ef > 0,
        forall|i: int|
            0 <= i < ids.len() && f.live.contains(#[trigger] ids[i]) ==> reachable(f, ids[i]),
    ensures
        sound(f, offered_all(f, w, ids, ef), ef, expanded, busy),
        w.seen.subset_of(offered_all(f, w, ids, ef).seen),
        forall|i: int|
            0 <= i < ids.len() ==> offered_all(f, w, ids, ef).seen.contains(#[trigger] ids[i]),
    decreases ids.len(),
{
    if ids.len() > 0 {
        let front = ids.drop_last();
        assert forall|i: int|
            0 <= i < front.len() && f.live.contains(#[trigger] front[i]) implies reachable(
            f,
            front[i],
        ) by {
            assert(front[i] == ids[i]);
        }
        lemma_offered_all_sound(f, w, front, ef, expanded, busy);
        assert(ids[ids.len() - 1] == ids.last());
        lemma_offered_sound(f, offered_all(f, w, front, ef), ids.last(), ef, expanded, busy);
        assert forall|i: int| 0 <= i < ids.len() implies offered_all(f, w, ids, ef).seen.contains(
            #[trigger] ids[i],
        ) by {
            if i < front.len() {
                assert(front[i] == ids[i]);
            }
        }
    }
}

proof fn lemma_expanded_all_sound(
    f: Field,
    w: Walk,
    ids: Seq<u64>,
    ef: nat,
    expanded: Set<u64>,
    busy: Set<u64>,
)
    requires
        sound(f, w, ef, expanded, busy),
        ef > 0,
        forall|i: int| 0 <= i < ids.len() ==> busy.contains(#[trigger] ids[i]),
    ensures
        sound(f, expanded_all(f, w, ids, ef), ef, expanded, busy),
        w.seen.subset_of(expanded_all(f, w, ids, ef).seen),
        forall|i: int, v: u64|
            0 <= i < ids.len() && #[trigger] (f.edges)(ids[i]).contains(v) ==> expanded_all(
                f,
                w,
                ids,
                ef,
            ).seen.contains(v),
    decreases ids.len(),
{
    if ids.len() > 0 {
        let front = ids.drop_last();
        let id = ids[ids.len() - 1];
        let nbs = (f.edges)(id);
        assert forall|i: int| 0 <= i < front.len() implies busy.contains(#[trigger] front[i]) by {
            assert(front[i] == ids[i]);
        }
        lemma_expanded_all_sound(f, w, front, ef, expanded, busy);
        let t = expanded_all(f, w, front, ef);
        assert(busy.contains(id));
        assert forall|i: int|
            0 <= i < nbs.len() && f.live.contains(#[trigger] nbs[i]) implies reachable(f, nbs[i]) by {
            assert(nbs.contains(nbs[i]));
            lemma_reach_edge(f, id, nbs[i]);
        }
        lemma_offered_all_sound(f, t, nbs, ef, expanded, busy);
        let u = expanded_all(f, w, ids, ef);
        assert forall|i: int, v: u64|
            0 <= i < ids.len() && #[trigger] (f.edges)(ids[i]).contains(v) implies u.seen.contains(
            v,
        ) by {
            if i < front.len() {
                assert((f.edges)(front[i]).contains(v));
            } else {
                let k = choose|k: int| 0 <= k < nbs.len() && nbs[k] == v;
                assert(u.seen.contains(nbs[k]));
            }
        }
    }
}

/// None of the best is still to be expanded.
spec fn settled(w: Walk, expanded: Set<u64>, busy: Set<u64>) -> bool {
    forall|i: int|
        0 <= i < w.best.len() ==> expanded.contains((#[trigger] w.best[i]).id) || busy.contains(
            w.best[i].id,
        )
}

proof fn lemma_next_sound(
    f: Field,
    w: Walk,
    width: nat,
    ef: nat,
    expanded: Set<u64>,
    busy: Set<u64>,
)
    requires
        sound(f, w, ef, expanded, busy),
    ensures
        sound(
            f,
            next_of(w, width).1,
            ef,
            expanded,
            busy.union(next_of(w, width).0.to_set()),
        ),
        width > 0 && next_of(w, width).0.len() == 0 ==> settled(w, expanded, busy),
    decreases width,
{
    if width == 0 || w.cands.len() == 0 {
        assert(busy.union(Seq::<u64>::empty().to_set()) =~= busy);
        if w.cands.len() == 0 {
            assert forall|i: int| 0 <= i < w.best.len() implies expanded.contains(
                (#[trigger] w.best[i]).id,
            ) || busy.contains(w.best[i].id) by {
                assert(is_in_hand(w, expanded, busy, w.best[i].id));
            }
        }
    } else {
        let m = w.cands.len() as int;
        let c = w.cands[m - 1];
        let v = popped(w);
        assert(known(f, w.seen, c));
        assert forall|i: int| 0 <= i < v.cands.len() implies known(f, v.seen, #[trigger] v.cands[i])
            && v.seen.contains(v.cands[i].id) by {
            assert(v.cands[i] == w.cands[i]);
        }
        assert forall|id: u64| #[trigger] has_id(w.cands, id) implies has_id(v.cands, id) || id
            == c.id by {
            let i = choose|i: int| 0 <= i < m && (#[trigger] w.cands[i]).id == id;
            if i < m - 1 {
                assert(v.cands[i].id == id);
            }
        }
        if is_far(w) {
            assert forall|i: int| 0 <= i < w.best.len() implies expanded.contains(
                (#[trigger] w.best[i]).id,
            ) || busy.contains(w.best[i].id) by {
                assert(is_in_hand(w, expanded, busy, w.best[i].id));
                if has_id(w.cands, w.best[i].id) {
                    let j = choose|j: int| 0 <= j < m && (#[trigger] w.cands[j]).id == w.best[i].id;
                    assert(known(f, w.seen, w.cands[j]));
                    assert(known(f, w.seen, w.best[i]));
                    if j < m - 1 {
                        assert(near_lt(w.cands[m - 1], w.cands[j]));
                    }
                    if i < w.best.len() - 1 {
                        assert(near_lt(w.best[i], w.best[w.best.len() - 1]));
                    }
                }
            }
            assert(busy.union(Seq::<u64>::empty().to_set()) =~= busy);
            assert forall|i: int| 0 <= i < v.best.len() implies is_in_hand(
                v,
                expanded,
                busy,
                (#[trigger] v.best[i]).id,
            ) by {
                assert(expanded.contains(w.best[i].id) || busy.contains(w.best[i].id));
            }
        } else {
            let now = busy.insert(c.id);
            assert forall|i: int| 0 <= i < v.best.len() implies is_in_hand(
                v,
                expanded,
                now,
                (#[trigger] v.best[i]).id,
            ) by {
                assert(is_in_hand(w, expanded, busy, w.best[i].id));
            }
            lemma_next_sound(f, v, (width - 1) as nat, ef, expanded, now);
            let rest = next_of(v, (width - 1) as nat).0;
            let all = next_of(w, width).0;
            assert(busy.union(all.to_set()) =~= now.union(rest.to_set())) by {
                assert forall|x: u64| #[trigger] all.contains(x) <==> rest.contains(x) || x
                    == c.id by {
                    if rest.contains(x) {
                        let k = choose|k: int| 0 <= k < rest.len() && rest[k] == x;
                        assert(all[k + 1] == x);
                    }
                    if x == c.id {
                        assert(all[0] == x);
                    }
                    if all.contains(x) {
                        let k = choose|k: int| 0 <= k < all.len() && all[k] == x;
                        if k > 0 {
                            assert(rest[k - 1] == x);
                        }
                    }
                }
            }
        }
    }
}

/// The nodes that are expanded next are the same in whatever order.
proof fn lemma_batch_is_next(w: Walk, p: Pace)
    ensures
        forall|i: int|
            0 <= i < batch_of(w, p).len() ==> next_of(w, p.width).0.to_set().contains(
                #[trigger] batch_of(w, p)[i],
            ),
        forall|x: u64| #[trigger]
            next_of(w, p.width).0.to_set().contains(x) ==> batch_of(w, p).contains(x),
{
    broadcast use vstd::seq_lib::group_to_multiset_ensures;

    let ids = next_of(w, p.width).0;
    let batch = batch_of(w, p);
    lemma_by_place(ids, p.place);
    assert forall|i: int| 0 <= i < batch.len() implies ids.to_set().contains(
        #[trigger] batch[i],
    ) by {
        assert(batch.contains(batch[i]));
        assert(ids.to_multiset().count(batch[i]) > 0);
    }
    assert forall|x: u64| #[trigger] ids.to_set().contains(x) implies batch.contains(x) by {
        assert(ids.contains(x));
        assert(batch.to_multiset().count(x) > 0);
    }
}

/// One step leaves the search sound: the next nodes are then expanded.
proof fn lemma_stepped_sound(f: Field, w: Walk, p: Pace, expanded: Set<u64>) -> (more: Set<u64>)
    requires
        sound(f, w, p.ef, expanded, Set::empty()),
        p.ef > 0,
    ensures
        sound(f, stepped(f, w, p), p.ef, more, Set::empty()),
        w.seen.subset_of(stepped(f, w, p).seen),
{
    let ids = next_of(w, p.width).0;
    let batch = batch_of(w, p);
    let busy = ids.to_set();
    let v = next_of(w, p.width).1;
    lemma_next_sound(f, w, p.width, p.ef, expanded, Set::empty());
    lemma_next_shrinks(w, p.width);
    assert(Set::<u64>::empty().union(busy) =~= busy);
    lemma_batch_is_next(w, p);
    lemma_expanded_all_sound(f, v, batch, p.ef, expanded, busy);
    let t = stepped(f, w, p);
    let more = expanded.union(busy);
    assert forall|e: u64, x: u64|
        more.contains(e) && #[trigger] (f.edges)(e).contains(x) implies t.seen.contains(x) by {
        if !expanded.contains(e) {
            let k = choose|k: int| 0 <= k < batch.len() && batch[k] == e;
            assert((f.edges)(batch[k]).contains(x));
        }
    }
    assert forall|i: int| 0 <= i < t.best.len() implies is_in_hand(
        t,
        more,
        Set::empty(),
        (#[trigger] t.best[i]).id,
    ) by {
        assert(is_in_hand(t, expanded, busy, t.best[i].id));
    }
    more
}

proof fn lemma_walked_sound(f: Field, w: Walk, p: Pace, expanded: Set<u64>) -> (more: Set<u64>)
    requires
        f.live.finite(),
        sound(f, w, p.ef, expanded, Set::empty()),
        p.ef > 0,
        p.width > 0,
    ensures
        sound(f, walked(f, w, p), p.ef, more, Set::empty()),
        settled(walked(f, w, p), more, Set::empty()),
        w.seen.subset_of(walked(f, w, p).seen),
    decreases left(f, w), w.cands.len(),
{
    if next_of(w, p.width).0.len() == 0 {
        lemma_next_sound(f, w, p.width, p.ef, expanded, Set::empty());
        expanded
    } else {
        lemma_stepped_shrinks(f, w, p);
        let next = lemma_stepped_sound(f, w, p, expanded);
        lemma_walked_sound(f, stepped(f, w, p), p, next)
    }
}

/// A search for nothing finds nothing.
proof fn lemma_none_offered(f: Field, w: Walk, ids: Seq<u64>)
    requires
        w.best.len() == 0,
    ensures
        offered_all(f, w, ids, 0).best.len() == 0,
    decreases ids.len(),
{
    if ids.len() > 0 {
        lemma_none_offered(f, w, ids.drop_last());
    }
}

proof fn lemma_none_expanded(f: Field, w: Walk, ids: Seq<u64>)
    requires
        w.best.len() == 0,
    ensures
        expanded_all(f, w, ids, 0).best.len() == 0,
    decreases ids.len(),
{
    if ids.len() > 0 {
        lemma_none_expanded(f, w, ids.drop_last());
        lemma_none_offered(
            f,
            expanded_all(f, w, ids.drop_last(), 0),
            (f.edges)(ids.last()),
        );
    }
}

proof fn lemma_none_walked(f: Field, w: Walk, p: Pace)
    requires
        f.live.finite(),
        w.best.len() == 0,
        p.ef == 0,
    ensures
        walked(f, w, p).best.len() == 0,
    decreases left(f, w), w.cands.len(),
{
    if next_of(w, p.width).0.len() > 0 {
        lemma_stepped_shrinks(f, w, p);
        lemma_next_shrinks(w, p.width);
        lemma_none_expanded(f, next_of(w, p.width).1, batch_of(w, p));
        lemma_none_walked(f, stepped(f, w, p), p);
    }
}

proof fn lemma_started_sound(f: Field, ef: nat)
    requires
        ef > 0,
    ensures
        sound(f, started(f, ef), ef, Set::empty(), Set::empty()),
        forall|i: int|
            0 <= i < f.seeds.len() ==> started(f, ef).seen.contains(#[trigger] f.seeds[i]),
{
    assert(sound(f, nothing(), ef, Set::empty(), Set::empty()));
    assert forall|i: int|
        0 <= i < f.seeds.len() && f.live.contains(#[trigger] f.seeds[i]) implies reachable(
        f,
        f.seeds[i],
    ) by {
        assert(is_path(f, seq![f.seeds[i]], f.seeds[i]));
    }
    lemma_offered_all_sound(f, nothing(), f.seeds, ef, Set::empty(), Set::empty());
}

/// What a search finds counts and can be reached, each node once, the nearest first,
/// and no more than `ef`; and of the seeds and of what its edges lead to, it leaves out
/// none that is nearer than the last, and none at all while there are fewer.
pub proof fn lemma_found_is_beam(f: Field, p: Pace)
    requires
        f.live.finite(),
        p.width > 0,
    ensures
        is_beam(found_by(f, p), f, p.ef),
{
    let s = started(f, p.ef);
    let r = found_by(f, p);
    if p.ef == 0 {
        lemma_none_offered(f, nothing(), f.seeds);
        lemma_none_walked(f, s, p);
        assert(r =~= Seq::empty());
    } else {
        lemma_started_sound(f, p.ef);
        let expanded = lemma_walked_sound(f, s, p, Set::empty());
        let w = walked(f, s, p);
        let best = w.best;
        assert(r == ids(best));
        assert forall|i: int| 0 <= i < r.len() implies known(f, w.seen, #[trigger] best[i])
            && best[i].id == r[i] by {}
        assert forall|i: int, j: int| 0 <= i < r.len() && 0 <= j < r.len() && i
            != j implies r[i] != r[j] by {
            if i < j {
                assert(near_lt(best[i], best[j]));
            } else {
                assert(near_lt(best[j], best[i]));
            }
            assert(known(f, w.seen, best[i]) && known(f, w.seen, best[j]));
        }
        assert forall|i: int, j: int| 0 <= i < j < r.len() implies (f.rank)(#[trigger] r[i]) <= (
        f.rank)(#[trigger] r[j]) by {
            assert(near_lt(best[i], best[j]));
            assert(known(f, w.seen, best[i]) && known(f, w.seen, best[j]));
        }
        assert forall|i: int| 0 <= i < r.len() implies f.live.contains(#[trigger] r[i])
            && reachable(f, r[i]) by {
            assert(known(f, w.seen, best[i]));
        }
        assert forall|v: u64| #[trigger] f.live.contains(v) && beside(r, f, v) && !r.contains(
            v,
        ) implies r.len() >= p.ef && (r.len() > 0 ==> (f.rank)(v) >= (f.rank)(r.last())) by {
            if f.seeds.contains(v) {
                let k = choose|k: int| 0 <= k < f.seeds.len() && f.seeds[k] == v;
                assert(s.seen.contains(f.seeds[k]));
            } else {
                let i = choose|i: int| 0 <= i < r.len() && (f.edges)(#[trigger] r[i]).contains(v);
                assert(expanded.contains(best[i].id));
                assert((f.edges)(best[i].id).contains(v));
            }
            assert(w.seen.contains(v));
            if has_id(best, v) {
                let i = choose|i: int| 0 <= i < best.len() && (#[trigger] best[i]).id == v;
                assert(r[i] == v);
            }
            assert(known(f, w.seen, best[best.len() - 1]));
            assert(r.last() == best.last().id);
        }
    }
}

/// A search that may find as many as there are nodes that count finds all of them that
/// it can come to, the nearest first: no scan of these finds nearer ones.
pub proof fn lemma_wide_search_finds_all(f: Field, p: Pace, v: u64)
    requires
        f.live.finite(),
        p.width > 0,
        p.ef >= f.live.len(),
        reachable(f, v),
    ensures
        found_by(f, p).contains(v),
{
    lemma_found_is_beam(f, p);
    let path = choose|path: Seq<u64>| is_path(f, path, v);
    lemma_path_is_found(f, p, path, path.len() - 1);
}

proof fn lemma_path_is_found(f: Field, p: Pace, path: Seq<u64>, n: int)
    requires
        f.live.finite(),
        p.ef >= f.live.len(),
        is_beam(found_by(f, p), f, p.ef),
        is_path(f, path, path.last()),
        0 <= n < path.len(),
    ensures
        found_by(f, p).contains(path[n]),
    decreases n,
{
    let r = found_by(f, p);
    let v = path[n];
    assert(f.live.contains(path[n]));
    if n > 0 {
        lemma_path_is_found(f, p, path, n - 1);
        let i = choose|i: int| 0 <= i < r.len() && r[i] == path[n - 1];
        assert((f.edges)(path[n - 1]).contains(path[n - 1 + 1]));
        assert((f.edges)(r[i]).contains(v));
    }
    assert(beside(r, f, v));
    if !r.contains(v) {
        assert(r.len() >= p.ef);
        r.unique_seq_to_set();
        assert(r.to_set().subset_of(f.live.remove(v))) by {
            assert forall|x: u64| #[trigger] r.to_set().contains(x) implies f.live.remove(
                v,
            ).contains(x) by {
                let k = choose|k: int| 0 <= k < r.len() && r[k] == x;
                assert(f.live.contains(r[k]));
            }
        }
        vstd::set_lib::lemma_len_subset(r.to_set(), f.live.remove(v));
    }
}

proof fn lemma_edges_are_seen(
    f: Field,
    w: Walk,
    p: Pace,
    expanded: Set<u64>,
    ids: Seq<u64>,
    i: int,
    v: u64,
)
    requires
        f.live.finite(),
        sound(f, w, p.ef, expanded, Set::empty()),
        p.ef > 0,
        p.width > 0,
        expands(f, w, p, ids),
        0 <= i < ids.len(),
        (f.edges)(ids[i]).contains(v),
    ensures
        walked(f, w, p).seen.contains(v),
    decreases left(f, w), w.cands.len(),
{
    lemma_stepped_shrinks(f, w, p);
    let more = lemma_stepped_sound(f, w, p, expanded);
    if ids == batch_of(w, p) {
        let busy = next_of(w, p.width).0.to_set();
        lemma_next_sound(f, w, p.width, p.ef, expanded, Set::empty());
        assert(Set::<u64>::empty().union(busy) =~= busy);
        lemma_batch_is_next(w, p);
        lemma_expanded_all_sound(f, next_of(w, p.width).1, ids, p.ef, expanded, busy);
        let _ = lemma_walked_sound(f, stepped(f, w, p), p, more);
    } else {
        lemma_edges_are_seen(f, stepped(f, w, p), p, more, ids, i, v);
    }
}

/// A search leaves out nothing that it comes upon and that is nearer than what it
/// finds: of all that the edges of the nodes lead to that it expands, none, unless it
/// finds as many as it may, and these are all as near.
pub proof fn lemma_nothing_nearer_is_left(f: Field, p: Pace, ids: Seq<u64>, i: int, v: u64)
    requires
        f.live.finite(),
        p.width > 0,
        p.ef > 0,
        expands(f, started(f, p.ef), p, ids),
        0 <= i < ids.len(),
        (f.edges)(ids[i]).contains(v),
        f.live.contains(v),
    ensures
        found_by(f, p).contains(v) || (found_by(f, p).len() == p.ef && (f.rank)(v) >= (f.rank)(
            found_by(f, p).last(),
        )),
{
    let s = started(f, p.ef);
    lemma_started_sound(f, p.ef);
    let expanded = lemma_walked_sound(f, s, p, Set::empty());
    lemma_edges_are_seen(f, s, p, Set::empty(), ids, i, v);
    let w = walked(f, s, p);
    let r = found_by(f, p);
    if has_id(w.best, v) {
        let k = choose|k: int| 0 <= k < w.best.len() && (#[trigger] w.best[k]).id == v;
        assert(r[k] == v);
    } else {
        assert(known(f, w.seen, w.best[w.best.len() - 1]));
        assert(r.last() == w.best.last().id);
    }
}

} // verus!
