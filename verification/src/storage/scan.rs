//! Putting together what scans of several runs show.
use crate::bytes;
use crate::storage::compaction_laws;
use crate::storage::key;
use crate::storage::key::{Hit, Version};
use crate::storage::timestamp::HlcTimestamp;
use vstd::prelude::*;

verus! {

/// The user keys of the hits are in ascending order, each once.
pub open spec fn ascending(hits: Seq<Hit>) -> bool {
    forall|i: int, j: int|
        0 <= i < j < hits.len() ==> bytes::lex_lt((#[trigger] hits[i]).0, (#[trigger] hits[j]).0)
}

/// The hit of a user key stands at place `p`.
pub open spec fn hit_at(hits: Seq<Hit>, p: int, k: Seq<u8>) -> bool {
    0 <= p < hits.len() && hits[p].0 == k
}

/// What a list of hits says of a user key.
pub open spec fn hit_for(hits: Seq<Hit>, k: Seq<u8>) -> Option<Option<Seq<u8>>> {
    if exists|p: int| hit_at(hits, p, k) {
        Some(hits[choose|p: int| hit_at(hits, p, k)].1)
    } else {
        None
    }
}

/// What several lists say of a user key: the first that names it decides.
pub open spec fn first_hit(lists: Seq<Seq<Hit>>, k: Seq<u8>) -> Option<Option<Seq<u8>>>
    decreases lists.len(),
{
    if lists.len() == 0 {
        None
    } else {
        match hit_for(lists[0], k) {
            Some(v) => Some(v),
            None => first_hit(lists.drop_first(), k),
        }
    }
}

/// The place of a hit in an ascending list is unique.
proof fn lemma_hit_for(hits: Seq<Hit>, p: int)
    requires
        ascending(hits),
        0 <= p < hits.len(),
    ensures
        hit_for(hits, hits[p].0) == Some(hits[p].1),
{
    let k = hits[p].0;
    assert(hit_at(hits, p, k));
    let q = choose|q: int| hit_at(hits, q, k);
    bytes::lemma_lex_irreflexive(k);
    if p < q {
        assert(bytes::lex_lt(hits[p].0, hits[q].0));
    }
    if q < p {
        assert(bytes::lex_lt(hits[q].0, hits[p].0));
    }
}

/// The first list that names a key decides.
proof fn lemma_first_hit(lists: Seq<Seq<Hit>>, i: int, k: Seq<u8>)
    requires
        0 <= i < lists.len(),
        hit_for(lists[i], k) is Some,
        forall|j: int| 0 <= j < i ==> hit_for(#[trigger] lists[j], k) is None,
    ensures
        first_hit(lists, k) == hit_for(lists[i], k),
    decreases lists.len(),
{
    if i > 0 {
        assert(hit_for(lists[0], k) is None);
        let rest = lists.drop_first();
        assert forall|j: int| 0 <= j < i - 1 implies hit_for(#[trigger] rest[j], k) is None by {
            assert(rest[j] == lists[j + 1]);
        }
        assert(rest[i - 1] == lists[i]);
        lemma_first_hit(rest, i - 1, k);
    }
}

proof fn lemma_no_hit(lists: Seq<Seq<Hit>>, k: Seq<u8>)
    requires
        forall|j: int| 0 <= j < lists.len() ==> hit_for(#[trigger] lists[j], k) is None,
    ensures
        first_hit(lists, k) is None,
    decreases lists.len(),
{
    if lists.len() > 0 {
        assert(hit_for(lists[0], k) is None);
        let rest = lists.drop_first();
        assert forall|j: int| 0 <= j < rest.len() implies hit_for(#[trigger] rest[j], k) is None by {
            assert(rest[j] == lists[j + 1]);
        }
        lemma_no_hit(rest, k);
    }
}

/// The values among what the scans show, in key order: each user key with what
/// the first list that names it says, unless that is a deletion.
pub open spec fn is_merged(result: Seq<(Seq<u8>, Seq<u8>)>, lists: Seq<Seq<Hit>>) -> bool {
    &&& forall|i: int, j: int|
        0 <= i < j < result.len() ==> bytes::lex_lt(
            (#[trigger] result[i]).0,
            (#[trigger] result[j]).0,
        )
    &&& forall|k: Seq<u8>, v: Seq<u8>|
        #[trigger] result.contains((k, v)) <==> first_hit(lists, k) == Some(Some(v))
}

/// Keys and values as mathematical values.
pub open spec fn pair_views(v: Seq<(Vec<u8>, Vec<u8>)>) -> Seq<(Seq<u8>, Seq<u8>)> {
    v.map_values(|e: (Vec<u8>, Vec<u8>)| (e.0@, e.1@))
}

/// Lists of hits as mathematical values.
pub open spec fn list_views(v: Seq<Vec<(Vec<u8>, Option<Vec<u8>>)>>) -> Seq<Seq<Hit>> {
    v.map_values(|l: Vec<(Vec<u8>, Option<Vec<u8>>)>| key::hit_views(l@))
}

/// `a` is not above the last key.
spec fn upto(last: Option<Seq<u8>>, a: Seq<u8>) -> bool {
    last matches Some(l) && !bytes::lex_lt(l, a)
}

/// How far the merge has come.
spec fn progress(
    lists: Seq<Seq<Hit>>,
    ptrs: Seq<usize>,
    last: Option<Seq<u8>>,
    result: Seq<(Seq<u8>, Seq<u8>)>,
) -> bool {
    &&& ptrs.len() == lists.len()
    &&& forall|i: int| 0 <= i < lists.len() ==> #[trigger] ptrs[i] <= lists[i].len()
    &&& forall|i: int, p: int|
        0 <= i < lists.len() && 0 <= p < ptrs[i] ==> upto(last, (#[trigger] lists[i][p]).0)
    &&& forall|i: int, p: int|
        0 <= i < lists.len() && ptrs[i] <= p < lists[i].len() && last is Some ==> !bytes::lex_lt(
            (#[trigger] lists[i][p]).0,
            last->0,
        )
    &&& forall|i: int, j: int|
        0 <= i < j < result.len() ==> bytes::lex_lt(
            (#[trigger] result[i]).0,
            (#[trigger] result[j]).0,
        )
    &&& forall|i: int| 0 <= i < result.len() ==> upto(last, (#[trigger] result[i]).0)
    &&& forall|k: Seq<u8>, v: Seq<u8>|
        upto(last, k) ==> (#[trigger] result.contains((k, v)) <==> first_hit(lists, k) == Some(
            Some(v),
        ))
}

/// The head of list `m` is the least of the heads, and the first of equals.
spec fn least_head(lists: Seq<Seq<Hit>>, ptrs: Seq<usize>, n: int, m: int) -> bool {
    &&& 0 <= m < n
    &&& ptrs[m] < lists[m].len()
    &&& forall|j: int|
        0 <= j < n && #[trigger] ptrs[j] < lists[j].len() ==> !bytes::lex_lt(
            lists[j][ptrs[j] as int].0,
            lists[m][ptrs[m] as int].0,
        )
    &&& forall|j: int|
        0 <= j < m && #[trigger] ptrs[j] < lists[j].len() ==> lists[j][ptrs[j] as int].0
            != lists[m][ptrs[m] as int].0
}

/// A key that was named already adds nothing.
proof fn lemma_progress_skip(
    lists: Seq<Seq<Hit>>,
    ptrs: Seq<usize>,
    last: Option<Seq<u8>>,
    result: Seq<(Seq<u8>, Seq<u8>)>,
    m: int,
)
    requires
        forall|i: int| 0 <= i < lists.len() ==> ascending(#[trigger] lists[i]),
        progress(lists, ptrs, last, result),
        0 <= m < lists.len(),
        ptrs[m] < lists[m].len(),
        ptrs[m] < usize::MAX,
        last == Some(lists[m][ptrs[m] as int].0),
    ensures
        progress(lists, ptrs.update(m, (ptrs[m] + 1) as usize), last, result),
{
    bytes::lemma_lex_irreflexive(last->0);
}

/// A new key is named by the first list whose head it is.
proof fn lemma_progress_step(
    lists: Seq<Seq<Hit>>,
    ptrs: Seq<usize>,
    last: Option<Seq<u8>>,
    result: Seq<(Seq<u8>, Seq<u8>)>,
    m: int,
    next_result: Seq<(Seq<u8>, Seq<u8>)>,
)
    requires
        forall|i: int| 0 <= i < lists.len() ==> ascending(#[trigger] lists[i]),
        progress(lists, ptrs, last, result),
        least_head(lists, ptrs, lists.len() as int, m),
        ptrs[m] < usize::MAX,
        last != Some(lists[m][ptrs[m] as int].0),
        next_result == (match lists[m][ptrs[m] as int].1 {
            Some(v) => result.push((lists[m][ptrs[m] as int].0, v)),
            None => result,
        }),
    ensures
        progress(
            lists,
            ptrs.update(m, (ptrs[m] + 1) as usize),
            Some(lists[m][ptrs[m] as int].0),
            next_result,
        ),
{
    let head = lists[m][ptrs[m] as int];
    let k = head.0;
    let now = ptrs.update(m, (ptrs[m] + 1) as usize);
    bytes::lemma_lex_irreflexive(k);
    if let Some(l) = last {
        assert(!bytes::lex_lt(lists[m][ptrs[m] as int].0, l));
        bytes::lemma_lex_total(l, k);
        assert(bytes::lex_lt(l, k));
    }
    // What is behind the pointers is not below the new key.
    assert forall|i: int, p: int|
        0 <= i < lists.len() && ptrs[i] <= p < lists[i].len() implies !bytes::lex_lt(
        (#[trigger] lists[i][p]).0,
        k,
    ) by {
        let h = lists[i][ptrs[i] as int].0;
        assert(!bytes::lex_lt(h, k));
        assert(ascending(lists[i]));
        if ptrs[i] < p {
            assert(bytes::lex_lt(h, lists[i][p].0));
            if bytes::lex_lt(lists[i][p].0, k) {
                bytes::lemma_lex_transitive(h, lists[i][p].0, k);
            }
        }
    }
    // What is in front of the pointers is below it.
    assert forall|i: int, p: int|
        0 <= i < lists.len() && 0 <= p < ptrs[i] implies bytes::lex_lt(
        (#[trigger] lists[i][p]).0,
        k,
    ) by {
        assert(upto(last, lists[i][p].0));
        let l = last->0;
        bytes::lemma_lex_total(l, lists[i][p].0);
        if lists[i][p].0 != l {
            bytes::lemma_lex_transitive(lists[i][p].0, l, k);
        }
    }
    assert forall|i: int, p: int| 0 <= i < lists.len() && 0 <= p < now[i] implies upto(
        Some(k),
        (#[trigger] lists[i][p]).0,
    ) by {
        if p < ptrs[i] {
            bytes::lemma_lex_asymmetric(lists[i][p].0, k);
        }
    }
    assert forall|i: int, p: int|
        0 <= i < lists.len() && now[i] <= p < lists[i].len() implies !bytes::lex_lt(
        (#[trigger] lists[i][p]).0,
        k,
    ) by {}
    // The results.
    assert forall|i: int| 0 <= i < result.len() implies bytes::lex_lt((#[trigger] result[i]).0, k) by {
        assert(upto(last, result[i].0));
        let l = last->0;
        bytes::lemma_lex_total(l, result[i].0);
        if result[i].0 != l {
            bytes::lemma_lex_transitive(result[i].0, l, k);
        }
    }
    assert forall|i: int| 0 <= i < next_result.len() implies upto(
        Some(k),
        (#[trigger] next_result[i]).0,
    ) by {
        if i < result.len() {
            assert(next_result[i] == result[i]);
            bytes::lemma_lex_asymmetric(result[i].0, k);
        }
    }
    assert forall|i: int, j: int| 0 <= i < j < next_result.len() implies bytes::lex_lt(
        (#[trigger] next_result[i]).0,
        (#[trigger] next_result[j]).0,
    ) by {
        assert(next_result[i] == result[i]);
        if j < result.len() {
            assert(next_result[j] == result[j]);
        }
    }
    // The key itself.
    assert(first_hit(lists, k) == Some(head.1)) by {
        lemma_hit_for(lists[m], ptrs[m] as int);
        assert forall|j: int| 0 <= j < m implies hit_for(#[trigger] lists[j], k) is None by {
            if exists|p: int| hit_at(lists[j], p, k) {
                let p = choose|p: int| hit_at(lists[j], p, k);
                if p < ptrs[j] {
                    assert(bytes::lex_lt(lists[j][p].0, k));
                } else {
                    let h = lists[j][ptrs[j] as int].0;
                    assert(ptrs[j] < lists[j].len());
                    assert(!bytes::lex_lt(h, k));
                    assert(ascending(lists[j]));
                    if ptrs[j] < p {
                        assert(bytes::lex_lt(h, lists[j][p].0));
                    }
                }
            }
        }
        lemma_first_hit(lists, m, k);
    }
    assert forall|q: Seq<u8>, v: Seq<u8>| upto(Some(k), q) implies (#[trigger] next_result.contains(
        (q, v),
    ) <==> first_hit(lists, q) == Some(Some(v))) by {
        if q == k {
            if next_result.contains((q, v)) {
                let w = choose|w: int| 0 <= w < next_result.len() && next_result[w] == (q, v);
                if w < result.len() {
                    assert(bytes::lex_lt(result[w].0, k));
                }
            }
            if first_hit(lists, q) == Some(Some(v)) {
                assert(next_result[result.len() as int] == (q, v));
            }
        } else {
            bytes::lemma_lex_total(q, k);
            assert(bytes::lex_lt(q, k));
            assert(next_result.contains((q, v)) <==> result.contains((q, v))) by {
                if result.contains((q, v)) {
                    let w = choose|w: int| 0 <= w < result.len() && result[w] == (q, v);
                    assert(next_result[w] == (q, v));
                }
                if next_result.contains((q, v)) {
                    let w = choose|w: int| 0 <= w < next_result.len() && next_result[w] == (q, v);
                    if w < result.len() {
                        assert(result[w] == (q, v));
                    }
                }
            }
            if !upto(last, q) {
                assert(!result.contains((q, v))) by {
                    if result.contains((q, v)) {
                        let w = choose|w: int| 0 <= w < result.len() && result[w] == (q, v);
                        assert(upto(last, result[w].0));
                    }
                }
                assert forall|j: int| 0 <= j < lists.len() implies hit_for(
                    #[trigger] lists[j],
                    q,
                ) is None by {
                    if exists|p: int| hit_at(lists[j], p, q) {
                        let p = choose|p: int| hit_at(lists[j], p, q);
                        if p < ptrs[j] {
                            assert(upto(last, lists[j][p].0));
                        } else {
                            assert(!bytes::lex_lt(lists[j][p].0, k));
                        }
                    }
                }
                lemma_no_hit(lists, q);
            }
        }
    }
}

/// When all lists are used up, everything has been named.
proof fn lemma_progress_done(
    lists: Seq<Seq<Hit>>,
    ptrs: Seq<usize>,
    last: Option<Seq<u8>>,
    result: Seq<(Seq<u8>, Seq<u8>)>,
)
    requires
        progress(lists, ptrs, last, result),
        forall|i: int| 0 <= i < lists.len() ==> #[trigger] ptrs[i] == lists[i].len(),
    ensures
        is_merged(result, lists),
{
    assert forall|k: Seq<u8>, v: Seq<u8>| #[trigger] result.contains((k, v)) <==> first_hit(
        lists,
        k,
    ) == Some(Some(v)) by {
        if !upto(last, k) {
            if result.contains((k, v)) {
                let w = choose|w: int| 0 <= w < result.len() && result[w] == (k, v);
                assert(upto(last, result[w].0));
            }
            assert forall|j: int| 0 <= j < lists.len() implies hit_for(#[trigger] lists[j], k) is None by {
                if exists|p: int| hit_at(lists[j], p, k) {
                    let p = choose|p: int| hit_at(lists[j], p, k);
                    assert(ptrs[j] == lists[j].len());
                    assert(upto(last, lists[j][p].0));
                }
            }
            lemma_no_hit(lists, k);
        }
    }
}

/// The values among what the scans show, in key order.
pub fn merge_scans(lists: &[Vec<(Vec<u8>, Option<Vec<u8>>)>]) -> (r: Vec<(Vec<u8>, Vec<u8>)>)
    requires
        forall|i: int| 0 <= i < lists@.len() ==> ascending(#[trigger] list_views(lists@)[i]),
    ensures
        is_merged(pair_views(r@), list_views(lists@)),
{
    let ghost all = list_views(lists@);
    let mut ptrs: Vec<usize> = Vec::new();
    let mut n: usize = 0;
    while n < lists.len()
        invariant
            n <= lists@.len(),
            ptrs@.len() == n,
            forall|i: int| 0 <= i < n ==> #[trigger] ptrs@[i] == 0,
        decreases lists@.len() - n,
    {
        ptrs.push(0);
        n = n + 1;
    }
    let mut merged: Vec<(Vec<u8>, Vec<u8>)> = Vec::new();
    let mut last: Option<Vec<u8>> = None;
    let mut left: bool = true;
    assert(pair_views(merged@) =~= Seq::empty());
    let ghost mut steps: int = room(all, ptrs@);
    proof {
        lemma_room(all, ptrs@);
    }
    while left
        invariant
            all == list_views(lists@),
            forall|i: int| 0 <= i < all.len() ==> ascending(#[trigger] all[i]),
            progress(all, ptrs@, bytes::value_view(last), pair_views(merged@)),
            !left ==> forall|i: int| 0 <= i < all.len() ==> #[trigger] ptrs@[i] == all[i].len(),
            steps == room(all, ptrs@),
            steps >= 0,
        decreases steps + (if left {
            1int
        } else {
            0int
        }),
    {
        let mut min_idx: Option<usize> = None;
        let mut i: usize = 0;
        while i < lists.len()
            invariant
                i <= lists@.len(),
                all == list_views(lists@),
                ptrs@.len() == all.len(),
                forall|j: int| 0 <= j < all.len() ==> #[trigger] ptrs@[j] <= all[j].len(),
                match min_idx {
                    Some(m) => least_head(all, ptrs@, i as int, m as int),
                    None => forall|j: int|
                        0 <= j < i ==> #[trigger] ptrs@[j] == all[j].len(),
                },
            decreases lists@.len() - i,
        {
            assert(all[i as int] == key::hit_views(lists@[i as int]@));
            if ptrs[i] < lists[i].len() {
                match min_idx {
                    Some(m) => {
                        assert(all[m as int] == key::hit_views(lists@[m as int]@));
                        let key_i = lists[i][ptrs[i]].0.as_slice();
                        let key_min = lists[m][ptrs[m]].0.as_slice();
                        if bytes::bytes_lt(key_i, key_min) {
                            proof {
                                assert forall|j: int|
                                    0 <= j < i && #[trigger] ptrs@[j] < all[j].len() implies bytes::lex_lt(
                                    key_i@,
                                    all[j][ptrs@[j] as int].0,
                                ) by {
                                    let h = all[j][ptrs@[j] as int].0;
                                    bytes::lemma_lex_total(h, key_min@);
                                    if h != key_min@ {
                                        bytes::lemma_lex_transitive(key_i@, key_min@, h);
                                    }
                                }
                                assert forall|j: int|
                                    0 <= j < i && #[trigger] ptrs@[j] < all[j].len() implies !bytes::lex_lt(
                                    all[j][ptrs@[j] as int].0,
                                    key_i@,
                                ) && all[j][ptrs@[j] as int].0 != key_i@ by {
                                    bytes::lemma_lex_asymmetric(
                                        key_i@,
                                        all[j][ptrs@[j] as int].0,
                                    );
                                }
                                bytes::lemma_lex_irreflexive(key_i@);
                            }
                            min_idx = Some(i);
                        }
                    },
                    None => {
                        proof {
                            bytes::lemma_lex_irreflexive(all[i as int][ptrs@[i as int] as int].0);
                        }
                        min_idx = Some(i);
                    },
                }
            }
            i = i + 1;
        }
        match min_idx {
            None => {
                left = false;
            },
            Some(m) => {
                assert(all[m as int] == key::hit_views(lists@[m as int]@));
                let at: usize = ptrs[m];
                let size: usize = lists[m].len();
                assert(at < size);
                let item = &lists[m][at];
                let ghost hit = all[m as int][at as int];
                assert(hit == (item.0@, bytes::value_view(item.1)));
                let ghost before = pair_views(merged@);
                let ghost old_last = bytes::value_view(last);
                let ghost old_ptrs = ptrs@;
                let known: bool = match &last {
                    Some(l) => bytes::bytes_eq(l.as_slice(), item.0.as_slice()),
                    None => false,
                };
                ptrs.set(m, at + 1);
                if known {
                    proof {
                        lemma_progress_skip(all, old_ptrs, old_last, before, m as int);
                    }
                } else {
                    last = Some(bytes::copy_bytes(item.0.as_slice()));
                    match &item.1 {
                        Some(v) => {
                            let pair = (
                                bytes::copy_bytes(item.0.as_slice()),
                                bytes::copy_bytes(v.as_slice()),
                            );
                            let ghost view = (pair.0@, pair.1@);
                            merged.push(pair);
                            assert(pair_views(merged@) =~= before.push(view));
                        },
                        None => {},
                    }
                    proof {
                        lemma_progress_step(
                            all,
                            old_ptrs,
                            old_last,
                            before,
                            m as int,
                            pair_views(merged@),
                        );
                    }
                }
                proof {
                    lemma_room_step(all, old_ptrs, m as int);
                    lemma_room(all, ptrs@);
                    steps = steps - 1;
                }
            },
        }
    }
    proof {
        lemma_progress_done(all, ptrs@, bytes::value_view(last), pair_views(merged@));
    }
    merged
}

/// The number of hits that are still to come.
spec fn room(lists: Seq<Seq<Hit>>, ptrs: Seq<usize>) -> int
    decreases lists.len(),
{
    if lists.len() == 0 {
        0
    } else {
        let n = lists.len() - 1;
        room(lists.drop_last(), ptrs) + lists[n].len() - ptrs[n]
    }
}

proof fn lemma_room(lists: Seq<Seq<Hit>>, ptrs: Seq<usize>)
    requires
        forall|i: int| 0 <= i < lists.len() ==> #[trigger] ptrs[i] <= lists[i].len(),
    ensures
        room(lists, ptrs) >= 0,
    decreases lists.len(),
{
    if lists.len() > 0 {
        let n = lists.len() - 1;
        assert(ptrs[n] <= lists[n].len());
        assert forall|i: int| 0 <= i < lists.drop_last().len() implies #[trigger] ptrs[i]
            <= lists.drop_last()[i].len() by {
            assert(lists.drop_last()[i] == lists[i]);
        }
        lemma_room(lists.drop_last(), ptrs);
    }
}

proof fn lemma_room_step(lists: Seq<Seq<Hit>>, ptrs: Seq<usize>, m: int)
    requires
        0 <= m < lists.len() <= ptrs.len(),
        ptrs[m] < usize::MAX,
    ensures
        room(lists, ptrs.update(m, (ptrs[m] + 1) as usize)) == room(lists, ptrs) - 1,
    decreases lists.len(),
{
    let now = ptrs.update(m, (ptrs[m] + 1) as usize);
    if m == lists.len() - 1 {
        lemma_room_same(lists.drop_last(), ptrs, now);
    } else {
        lemma_room_step(lists.drop_last(), ptrs, m);
    }
}

proof fn lemma_room_same(lists: Seq<Seq<Hit>>, a: Seq<usize>, b: Seq<usize>)
    requires
        forall|i: int| 0 <= i < lists.len() ==> #[trigger] a[i] == b[i],
    ensures
        room(lists, a) == room(lists, b),
    decreases lists.len(),
{
    if lists.len() > 0 {
        assert(a[lists.len() - 1] == b[lists.len() - 1]);
        lemma_room_same(lists.drop_last(), a, b);
    }
}

// ----------------------------------------------------------------------
// Scans and reads
// ----------------------------------------------------------------------
/// What the scans of the runs show.
pub open spec fn scans_of(
    runs: Seq<Seq<Version>>,
    start: Seq<u8>,
    end: Seq<u8>,
    as_of: HlcTimestamp,
) -> Seq<Seq<Hit>> {
    runs.map_values(|r: Seq<Version>| key::scanned(r, start, end, as_of))
}

/// A scan's result: in key order, exactly the user keys in the range for which
/// a read of the runs at that time gives a value, with that value.
pub open spec fn is_scan(
    result: Seq<(Seq<u8>, Seq<u8>)>,
    runs: Seq<Seq<Version>>,
    start: Seq<u8>,
    end: Seq<u8>,
    as_of: HlcTimestamp,
) -> bool {
    &&& forall|i: int, j: int|
        0 <= i < j < result.len() ==> bytes::lex_lt(
            (#[trigger] result[i]).0,
            (#[trigger] result[j]).0,
        )
    &&& forall|k: Seq<u8>, v: Seq<u8>| #[trigger]
        result.contains((k, v)) <==> key::in_bounds(k, start, end)
            && compaction_laws::first_visible(runs, k, as_of) == Some(Some(v))
}

/// There is only one result of a scan.
pub proof fn lemma_scan_unique(
    a: Seq<(Seq<u8>, Seq<u8>)>,
    b: Seq<(Seq<u8>, Seq<u8>)>,
    runs: Seq<Seq<Version>>,
    start: Seq<u8>,
    end: Seq<u8>,
    as_of: HlcTimestamp,
)
    requires
        is_scan(a, runs, start, end, as_of),
        is_scan(b, runs, start, end, as_of),
    ensures
        a == b,
{
    lemma_scan_front(a, b, runs, start, end, as_of, a.len() as int);
    lemma_scan_front(b, a, runs, start, end, as_of, b.len() as int);
    assert(a =~= b);
}

/// The first hits of two results of a scan are the same.
proof fn lemma_scan_front(
    a: Seq<(Seq<u8>, Seq<u8>)>,
    b: Seq<(Seq<u8>, Seq<u8>)>,
    runs: Seq<Seq<Version>>,
    start: Seq<u8>,
    end: Seq<u8>,
    as_of: HlcTimestamp,
    n: int,
)
    requires
        is_scan(a, runs, start, end, as_of),
        is_scan(b, runs, start, end, as_of),
        0 <= n <= a.len(),
    ensures
        n <= b.len(),
        forall|i: int| 0 <= i < n ==> a[i] == b[i],
    decreases n,
{
    if n > 0 {
        lemma_scan_front(a, b, runs, start, end, as_of, n - 1);
        let x = a[n - 1];
        assert(a.contains((x.0, x.1)));
        assert(b.contains((x.0, x.1)));
        let k = choose|k: int| 0 <= k < b.len() && b[k] == (x.0, x.1);
        if k < n - 1 {
            assert(bytes::lex_lt(a[k].0, a[n - 1].0));
            bytes::lemma_lex_irreflexive(x.0);
        } else if k > n - 1 {
            let y = b[n - 1];
            assert(b.contains((y.0, y.1)));
            assert(a.contains((y.0, y.1)));
            let m = choose|m: int| 0 <= m < a.len() && a[m] == (y.0, y.1);
            assert(bytes::lex_lt(b[n - 1].0, b[k].0));
            if m < n - 1 {
                assert(bytes::lex_lt(b[m].0, b[n - 1].0));
                bytes::lemma_lex_irreflexive(y.0);
            } else if m > n - 1 {
                assert(bytes::lex_lt(a[n - 1].0, a[m].0));
                bytes::lemma_lex_asymmetric(x.0, y.0);
            } else {
                bytes::lemma_lex_irreflexive(x.0);
            }
        }
    }
}

/// What a scan of a run says of a key is what a read of the run finds.
proof fn lemma_scan_hit(
    run: Seq<Version>,
    start: Seq<u8>,
    end: Seq<u8>,
    as_of: HlcTimestamp,
    k: Seq<u8>,
)
    requires
        key::sorted(run),
    ensures
        ascending(key::scanned(run, start, end, as_of)),
        hit_for(key::scanned(run, start, end, as_of), k) == (if key::in_bounds(k, start, end) {
            key::visible(run, k, as_of)
        } else {
            None
        }),
{
    let n = run.len() as int;
    let hits = key::scanned(run, start, end, as_of);
    key::lemma_scan_agrees_with_reads(run, n, start, end, as_of);
    key::lemma_first_match(run, k, as_of);
    if exists|p: int| hit_at(hits, p, k) {
        let p = choose|p: int| hit_at(hits, p, k);
        assert(key::in_bounds(hits[p].0, start, end));
        lemma_hit_for(hits, p);
    } else if key::in_bounds(k, start, end) && key::first_match(run, k, as_of) < n {
        let i = choose|i: int| 0 <= i < hits.len() && (#[trigger] hits[i]).0 == k;
        assert(hit_at(hits, i, k));
    }
}

/// Putting scans together reads as the runs do.
pub proof fn lemma_scans_read(
    runs: Seq<Seq<Version>>,
    start: Seq<u8>,
    end: Seq<u8>,
    as_of: HlcTimestamp,
    k: Seq<u8>,
)
    requires
        compaction_laws::all_sorted(runs),
    ensures
        first_hit(scans_of(runs, start, end, as_of), k) == (if key::in_bounds(k, start, end) {
            compaction_laws::first_visible(runs, k, as_of)
        } else {
            None
        }),
        forall|i: int|
            0 <= i < runs.len() ==> ascending(#[trigger] scans_of(runs, start, end, as_of)[i]),
    decreases runs.len(),
{
    let lists = scans_of(runs, start, end, as_of);
    assert forall|i: int| 0 <= i < runs.len() implies ascending(#[trigger] lists[i]) by {
        assert(key::sorted(runs[i]));
        lemma_scan_hit(runs[i], start, end, as_of, k);
    }
    if runs.len() > 0 {
        assert(key::sorted(runs[0]));
        lemma_scan_hit(runs[0], start, end, as_of, k);
        let rest = runs.drop_first();
        assert forall|i: int| 0 <= i < rest.len() implies key::sorted(#[trigger] rest[i]) by {
            assert(rest[i] == runs[i + 1]);
            assert(key::sorted(runs[i + 1]));
        }
        lemma_scans_read(rest, start, end, as_of, k);
        assert(lists.drop_first() =~= scans_of(rest, start, end, as_of));
    }
}

/// A merge of the scans of the runs is a scan of them all.
pub proof fn lemma_merged_is_scan(
    result: Seq<(Seq<u8>, Seq<u8>)>,
    runs: Seq<Seq<Version>>,
    start: Seq<u8>,
    end: Seq<u8>,
    as_of: HlcTimestamp,
)
    requires
        compaction_laws::all_sorted(runs),
        is_merged(result, scans_of(runs, start, end, as_of)),
    ensures
        is_scan(result, runs, start, end, as_of),
{
    assert forall|k: Seq<u8>, v: Seq<u8>| #[trigger] result.contains((k, v)) <==> key::in_bounds(
        k,
        start,
        end,
    ) && compaction_laws::first_visible(runs, k, as_of) == Some(Some(v)) by {
        lemma_scans_read(runs, start, end, as_of, k);
    }
}

} // verus!
