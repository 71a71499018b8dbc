//! Pairs in the order of their second numbers.
use vstd::prelude::*;

verus! {

/// Each number twice.
pub open spec fn paired(v: Seq<u64>) -> Seq<(u64, u64)> {
    Seq::new(v.len(), |i: int| (v[i], v[i]))
}

/// The first number of each pair.
pub open spec fn firsts(v: Seq<(u64, u64)>) -> Seq<u64> {
    Seq::new(v.len(), |i: int| v[i].0)
}

/// A pair put behind all those that do not come after it.
pub open spec fn put_in(s: Seq<(u64, u64)>, x: (u64, u64)) -> Seq<(u64, u64)>
    decreases s.len(),
{
    if s.len() == 0 || s.last().1 <= x.1 {
        s.push(x)
    } else {
        put_in(s.drop_last(), x).push(s.last())
    }
}

/// Pairs in the order of their second numbers; equal ones keep their order.
pub open spec fn in_order(s: Seq<(u64, u64)>) -> Seq<(u64, u64)>
    decreases s.len(),
{
    if s.len() == 0 {
        Seq::empty()
    } else {
        put_in(in_order(s.drop_last()), s.last())
    }
}

/// Pairs stand in the order of their second numbers.
pub open spec fn ascends(s: Seq<(u64, u64)>) -> bool {
    forall|i: int, j: int| 0 <= i < j < s.len() ==> (#[trigger] s[i]).1 <= (#[trigger] s[j]).1
}

proof fn lemma_put_in(s: Seq<(u64, u64)>, x: (u64, u64), p: int)
    requires
        0 <= p <= s.len(),
        p == 0 || s[p - 1].1 <= x.1,
        forall|k: int| p <= k < s.len() ==> x.1 < (#[trigger] s[k]).1,
    ensures
        put_in(s, x) == s.insert(p, x),
    decreases s.len(),
{
    if p == s.len() {
        assert(s.insert(p, x) =~= s.push(x));
    } else {
        assert(x.1 < s[s.len() - 1].1);
        lemma_put_in(s.drop_last(), x, p);
        assert(s.insert(p, x) =~= s.drop_last().insert(p, x).push(s.last()));
    }
}

proof fn lemma_put_in_keeps(s: Seq<(u64, u64)>, x: (u64, u64))
    requires
        ascends(s),
    ensures
        ascends(put_in(s, x)),
        put_in(s, x).to_multiset() == s.to_multiset().insert(x),
        put_in(s, x).len() == s.len() + 1,
        forall|i: int| 0 <= i < put_in(s, x).len() ==> (#[trigger] put_in(s, x)[i]) == x || s.contains(put_in(s, x)[i]),
    decreases s.len(),
{
    broadcast use vstd::seq_lib::group_to_multiset_ensures;

    if s.len() == 0 || s.last().1 <= x.1 {
        assert forall|i: int| 0 <= i < put_in(s, x).len() implies (#[trigger] put_in(s, x)[i]) == x
            || s.contains(put_in(s, x)[i]) by {
            if i < s.len() {
                assert(s.contains(s[i]));
            }
        }
    } else {
        let a = s.drop_last();
        let y = s.last();
        lemma_put_in_keeps(a, x);
        let r = put_in(a, x);
        assert forall|i: int, j: int| 0 <= i < j < r.push(y).len() implies (#[trigger] r.push(
            y,
        )[i]).1 <= (#[trigger] r.push(y)[j]).1 by {
            if j == r.len() {
                if r[i] != x {
                    let k = choose|k: int| 0 <= k < a.len() && a[k] == r[i];
                    assert(s[k].1 <= s[s.len() - 1].1);
                }
            }
        }
        assert(s =~= a.push(y));
        assert(put_in(s, x) =~= r.push(y));
        assert(r.push(y).to_multiset() =~= r.to_multiset().insert(y));
        assert(a.push(y).to_multiset() =~= a.to_multiset().insert(y));
        assert(a.to_multiset().insert(x).insert(y) =~= a.to_multiset().insert(y).insert(x));
        assert forall|i: int| 0 <= i < put_in(s, x).len() implies (#[trigger] put_in(s, x)[i]) == x
            || s.contains(put_in(s, x)[i]) by {
            if i < r.len() {
                if r[i] != x {
                    let k = choose|k: int| 0 <= k < a.len() && a[k] == r[i];
                    assert(s[k] == r[i]);
                }
            } else {
                assert(s[s.len() - 1] == y);
            }
        }
    }
}

/// Pairs put in order are the same pairs, in order.
pub proof fn lemma_in_order(s: Seq<(u64, u64)>)
    ensures
        ascends(in_order(s)),
        in_order(s).to_multiset() == s.to_multiset(),
        in_order(s).len() == s.len(),
    decreases s.len(),
{
    broadcast use vstd::seq_lib::group_to_multiset_ensures;

    if s.len() > 0 {
        lemma_in_order(s.drop_last());
        lemma_put_in_keeps(in_order(s.drop_last()), s.last());
        assert(s =~= s.drop_last().push(s.last()));
    } else {
        assert(s =~= Seq::empty());
    }
}

proof fn lemma_put_in_is_stable(s: Seq<(u64, u64)>, x: (u64, u64), d: u64)
    ensures
        put_in(s, x).filter(|p: (u64, u64)| p.1 == d) == if x.1 == d {
            s.filter(|p: (u64, u64)| p.1 == d).push(x)
        } else {
            s.filter(|p: (u64, u64)| p.1 == d)
        },
    decreases s.len(),
{
    reveal(Seq::filter);
    let pick = |p: (u64, u64)| p.1 == d;
    if s.len() == 0 || s.last().1 <= x.1 {
        assert(s.push(x).drop_last() =~= s);
    } else {
        let inner = put_in(s.drop_last(), x);
        lemma_put_in_is_stable(s.drop_last(), x, d);
        assert(inner.push(s.last()).drop_last() =~= inner);
    }
}

/// Pairs with the same second number keep their order.
pub proof fn lemma_equals_keep_their_order(s: Seq<(u64, u64)>, d: u64)
    ensures
        in_order(s).filter(|p: (u64, u64)| p.1 == d) == s.filter(|p: (u64, u64)| p.1 == d),
    decreases s.len(),
{
    reveal(Seq::filter);
    if s.len() > 0 {
        lemma_equals_keep_their_order(s.drop_last(), d);
        lemma_put_in_is_stable(in_order(s.drop_last()), s.last(), d);
    }
}

/// Where pairs are the same, so are their first numbers.
pub proof fn lemma_firsts(a: Seq<(u64, u64)>, b: Seq<(u64, u64)>)
    requires
        a.to_multiset() == b.to_multiset(),
    ensures
        firsts(a).to_multiset() == firsts(b).to_multiset(),
    decreases a.len(),
{
    broadcast use vstd::seq_lib::group_to_multiset_ensures;

    assert(a.len() == a.to_multiset().len());
    assert(b.len() == b.to_multiset().len());
    if a.len() == 0 {
        assert(firsts(a) =~= firsts(b));
    } else {
        let x = a.last();
        assert(a =~= a.drop_last().push(x));
        assert(b.to_multiset().count(x) > 0);
        assert(b.contains(x));
        let k = choose|k: int| 0 <= k < b.len() && b[k] == x;
        let c = b.remove(k);
        assert(c.to_multiset() =~= b.to_multiset().remove(x));
        assert(a.drop_last().to_multiset() =~= a.to_multiset().remove(x));
        lemma_firsts(a.drop_last(), c);
        assert(firsts(a) =~= firsts(a.drop_last()).push(x.0));
        assert(firsts(c) =~= firsts(b).remove(k));
        assert(firsts(b)[k] == x.0);
        assert(firsts(b).to_multiset().remove(x.0) =~= firsts(c).to_multiset());
        assert(firsts(b).contains(x.0));
        assert(firsts(b).to_multiset() =~= firsts(c).to_multiset().insert(x.0));
    }
}

/// Where the numbers of each pair are the same, they still are in another order.
pub proof fn lemma_twins(a: Seq<(u64, u64)>, b: Seq<(u64, u64)>, i: int)
    requires
        a.to_multiset() == b.to_multiset(),
        forall|k: int| 0 <= k < b.len() ==> (#[trigger] b[k]).0 == b[k].1,
        0 <= i < a.len(),
    ensures
        a[i].0 == a[i].1,
{
    broadcast use vstd::seq_lib::group_to_multiset_ensures;

    assert(a.contains(a[i]));
    assert(b.to_multiset().count(a[i]) > 0);
    assert(b.contains(a[i]));
}

/// Pairs in the order of their second numbers.
pub fn sort_pairs(v: Vec<(u64, u64)>) -> (r: Vec<(u64, u64)>)
    ensures
        r@ == in_order(v@),
{
    let mut r: Vec<(u64, u64)> = Vec::new();
    let mut i: usize = 0;
    assert(v@.take(0) =~= Seq::empty());
    while i < v.len()
        invariant
            i <= v@.len(),
            r@ == in_order(v@.take(i as int)),
        decreases v@.len() - i,
    {
        let x: (u64, u64) = v[i];
        let mut p: usize = r.len();
        while p > 0 && x.1 < r[p - 1].1
            invariant
                p <= r@.len(),
                forall|k: int| p <= k < r@.len() ==> x.1 < (#[trigger] r@[k]).1,
            decreases p,
        {
            p = p - 1;
        }
        proof {
            lemma_put_in(r@, x, p as int);
            assert(v@.take(i + 1).drop_last() =~= v@.take(i as int));
        }
        r.insert(p, x);
        i = i + 1;
    }
    assert(v@.take(i as int) =~= v@);
    r
}

} // verus!
