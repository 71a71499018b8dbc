//! Distances that the caller measures.
use vstd::prelude::*;

verus! {

/// The caller can say for each node how far it is from the query, and always
/// says the same.
pub open spec fn measures<D: Fn(u64) -> u32>(d: D) -> bool {
    &&& forall|id: u64| #[trigger] call_requires(d, (id,))
    &&& forall|id: u64, a: u32, b: u32| #[trigger]
        call_ensures(d, (id,), a) && #[trigger] call_ensures(d, (id,), b) ==> a == b
}

/// The rank of a node's distance from the query.
pub open spec fn measure<D: Fn(u64) -> u32>(d: D, id: u64) -> u32 {
    choose|r: u32| call_ensures(d, (id,), r)
}

/// The ranks of the distances from a query.
pub open spec fn ranks<D: Fn(u64) -> u32>(d: D) -> spec_fn(u64) -> u32 {
    |id: u64| measure(d, id)
}

/// What the caller says are these ranks.
pub open spec fn gauges<D: Fn(u64) -> u32>(d: D, rank: spec_fn(u64) -> u32) -> bool {
    &&& forall|id: u64| #[trigger] call_requires(d, (id,))
    &&& forall|id: u64, r: u32| #[trigger] call_ensures(d, (id,), r) ==> r == rank(id)
}

/// A caller that always says the same says the ranks of the distances.
pub proof fn lemma_gauges<D: Fn(u64) -> u32>(d: D)
    requires
        measures(d),
    ensures
        gauges(d, ranks(d)),
{
    assert forall|id: u64, r: u32| #[trigger] call_ensures(d, (id,), r) implies r == ranks(d)(
        id,
    ) by {
        let s = choose|s: u32| call_ensures(d, (id,), s);
        assert(call_ensures(d, (id,), s));
    }
}

/// The rank of a node's distance from the query.
pub fn ask<D: Fn(u64) -> u32>(d: &D, id: u64, rank: Ghost<spec_fn(u64) -> u32>) -> (r: u32)
    requires
        gauges(*d, rank@),
    ensures
        r == rank@(id),
{
    d(id)
}

/// The caller can say for each two nodes how far they are from each other, and
/// always says the same.
pub open spec fn measures_pairs<P: Fn(u64, u64) -> u32>(p: P) -> bool {
    &&& forall|x: u64, y: u64| #[trigger] call_requires(p, (x, y))
    &&& forall|x: u64, y: u64, a: u32, b: u32| #[trigger]
        call_ensures(p, (x, y), a) && #[trigger] call_ensures(p, (x, y), b) ==> a == b
}

/// The rank of the distance of two nodes.
pub open spec fn measure_pair<P: Fn(u64, u64) -> u32>(p: P, x: u64, y: u64) -> u32 {
    choose|r: u32| call_ensures(p, (x, y), r)
}

/// The rank of the distance of two nodes.
pub fn ask_pair<P: Fn(u64, u64) -> u32>(p: &P, x: u64, y: u64) -> (r: u32)
    requires
        measures_pairs(*p),
    ensures
        r == measure_pair(*p, x, y),
{
    let r: u32 = p(x, y);
    assert(call_ensures(*p, (x, y), r));
    r
}

} // verus!
