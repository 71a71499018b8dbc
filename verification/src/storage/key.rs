//! Versioned keys, runs of versions in key order, and what is visible in a run
//! at a point in time.
use crate::bytes;
use crate::storage::timestamp;
use crate::storage::timestamp::HlcTimestamp;
use vstd::prelude::*;

verus! {

/// A user key and the time of one of its versions.
#[derive(Debug)]
pub struct MemKey {
    pub user_key: Vec<u8>,
    pub ts: HlcTimestamp,
}

/// A versioned key as a mathematical value.
#[verifier::ext_equal]
pub struct KeyView {
    pub user: Seq<u8>,
    pub ts: HlcTimestamp,
}

impl View for MemKey {
    type V = KeyView;

    open spec fn view(&self) -> KeyView {
        KeyView { user: self.user_key@, ts: self.ts }
    }
}

/// Versioned keys are ordered by the user key; of two versions of one user key
/// the newer comes first.
pub open spec fn key_lt(a: KeyView, b: KeyView) -> bool {
    bytes::lex_lt(a.user, b.user) || (a.user == b.user && timestamp::ts_lt(b.ts, a.ts))
}

/// One version of a user key; a deletion has no value.
#[verifier::ext_equal]
pub struct Version {
    pub key: KeyView,
    pub value: Option<Seq<u8>>,
}

/// A stored version as a mathematical value.
pub open spec fn version_view(e: (MemKey, Option<Vec<u8>>)) -> Version {
    Version { key: e.0@, value: bytes::value_view(e.1) }
}

/// Stored versions as mathematical values.
pub open spec fn version_views(v: Seq<(MemKey, Option<Vec<u8>>)>) -> Seq<Version> {
    v.map_values(|e: (MemKey, Option<Vec<u8>>)| version_view(e))
}

/// The versions are in key order.
pub open spec fn sorted(run: Seq<Version>) -> bool {
    forall|i: int, j: int| 0 <= i < j < run.len() ==> !key_lt(run[j].key, run[i].key)
}

/// The version is one of `key` that existed at `as_of`.
pub open spec fn matches_at(v: Version, key: Seq<u8>, as_of: HlcTimestamp) -> bool {
    v.key.user == key && timestamp::ts_le(v.key.ts, as_of)
}

/// The place of the first version of `key` that existed at `as_of`, or the
/// length of the run if there is none.
pub open spec fn first_match(run: Seq<Version>, key: Seq<u8>, as_of: HlcTimestamp) -> int
    decreases run.len(),
{
    if run.len() == 0 || matches_at(run[0], key, as_of) {
        0
    } else {
        1 + first_match(run.drop_first(), key, as_of)
    }
}

/// What a read of `key` at `as_of` finds in a run: nothing, a deletion, or a
/// value.
pub open spec fn visible(run: Seq<Version>, key: Seq<u8>, as_of: HlcTimestamp) -> Option<
    Option<Seq<u8>>,
> {
    let i = first_match(run, key, as_of);
    if i < run.len() {
        Some(run[i].value)
    } else {
        None
    }
}

/// The place in front of which a new version of `key` goes: behind all smaller
/// keys.
pub open spec fn place(run: Seq<Version>, key: KeyView) -> int
    decreases run.len(),
{
    if run.len() == 0 || !key_lt(run[0].key, key) {
        0
    } else {
        1 + place(run.drop_first(), key)
    }
}

/// The user key is in the range from `start` up to, not including, `end`; an
/// empty `end` is no bound.
pub open spec fn in_bounds(user: Seq<u8>, start: Seq<u8>, end: Seq<u8>) -> bool {
    !bytes::lex_lt(user, start) && (end.len() == 0 || bytes::lex_lt(user, end))
}

/// The version at place `i` is the one that a scan at `as_of` shows of its
/// user key.
pub open spec fn shown(
    run: Seq<Version>,
    i: int,
    start: Seq<u8>,
    end: Seq<u8>,
    as_of: HlcTimestamp,
) -> bool {
    &&& in_bounds(run[i].key.user, start, end)
    &&& timestamp::ts_le(run[i].key.ts, as_of)
    &&& forall|j: int| 0 <= j < i ==> !matches_at(#[trigger] run[j], run[i].key.user, as_of)
}

/// A user key and what a scan shows of it.
pub type Hit = (Seq<u8>, Option<Seq<u8>>);

/// What a scan shows of the first `n` versions of a run.
pub open spec fn scan_first(
    run: Seq<Version>,
    n: int,
    start: Seq<u8>,
    end: Seq<u8>,
    as_of: HlcTimestamp,
) -> Seq<Hit>
    decreases n,
{
    if n <= 0 {
        Seq::empty()
    } else {
        let front = scan_first(run, n - 1, start, end, as_of);
        if shown(run, n - 1, start, end, as_of) {
            front.push((run[n - 1].key.user, run[n - 1].value))
        } else {
            front
        }
    }
}

/// What a scan of a run shows.
pub open spec fn scanned(
    run: Seq<Version>,
    start: Seq<u8>,
    end: Seq<u8>,
    as_of: HlcTimestamp,
) -> Seq<Hit> {
    scan_first(run, run.len() as int, start, end, as_of)
}

/// A scan's results as mathematical values.
pub open spec fn hit_views(v: Seq<(Vec<u8>, Option<Vec<u8>>)>) -> Seq<Hit> {
    v.map_values(|e: (Vec<u8>, Option<Vec<u8>>)| (e.0@, bytes::value_view(e.1)))
}

impl Clone for MemKey {
    fn clone(&self) -> (r: Self)
        ensures
            r@ == self@,
    {
        MemKey { user_key: bytes::copy_bytes(self.user_key.as_slice()), ts: self.ts }
    }
}

impl MemKey {
    /// Whether this key comes before `other`.
    pub fn is_before(&self, other: &MemKey) -> (r: bool)
        ensures
            r == key_lt(self@, other@),
    {
        let a = self.user_key.as_slice();
        let b = other.user_key.as_slice();
        let i: usize = bytes::common_len(a, b);
        if i < a.len() && i < b.len() {
            assert(a@ != b@);
            a[i] < b[i]
        } else if a.len() == b.len() {
            proof {
                assert(a@.take(i as int) =~= a@);
                assert(b@.take(i as int) =~= b@);
                bytes::lemma_lex_irreflexive(a@);
            }
            other.ts.is_before(&self.ts)
        } else {
            assert(a@ != b@);
            i < b.len()
        }
    }
}

/// An owned copy of a stored version.
pub fn copy_version(e: &(MemKey, Option<Vec<u8>>)) -> (r: (MemKey, Option<Vec<u8>>))
    ensures
        version_view(r) == version_view(*e),
{
    (e.0.clone(), bytes::copy_value(&e.1))
}

// ----------------------------------------------------------------------
// The order of keys
// ----------------------------------------------------------------------
/// The order of versioned keys is transitive.
pub proof fn lemma_key_lt_transitive(a: KeyView, b: KeyView, c: KeyView)
    requires
        key_lt(a, b),
        key_lt(b, c),
    ensures
        key_lt(a, c),
{
    if bytes::lex_lt(a.user, b.user) && bytes::lex_lt(b.user, c.user) {
        bytes::lemma_lex_transitive(a.user, b.user, c.user);
    }
}

/// No versioned key comes before itself, and of two one does not come before
/// the other both ways.
pub proof fn lemma_key_lt_asymmetric(a: KeyView, b: KeyView)
    requires
        key_lt(a, b),
    ensures
        !key_lt(b, a),
        a != b,
{
    bytes::lemma_lex_irreflexive(a.user);
    if bytes::lex_lt(a.user, b.user) {
        bytes::lemma_lex_asymmetric(a.user, b.user);
    }
}

/// Of two versioned keys one comes first, or they are equal.
pub proof fn lemma_key_lt_total(a: KeyView, b: KeyView)
    ensures
        key_lt(a, b) || key_lt(b, a) || a == b,
{
    bytes::lemma_lex_total(a.user, b.user);
}

/// "Not before" is transitive.
pub proof fn lemma_key_ge_transitive(a: KeyView, b: KeyView, c: KeyView)
    requires
        !key_lt(b, a),
        !key_lt(c, b),
    ensures
        !key_lt(c, a),
{
    lemma_key_lt_total(a, b);
    lemma_key_lt_total(b, c);
    if key_lt(c, a) {
        if a != b {
            lemma_key_lt_transitive(c, a, b);
        }
    }
}

/// What is in front of a key's place comes before it.
pub proof fn lemma_place(run: Seq<Version>, key: KeyView)
    ensures
        0 <= place(run, key) <= run.len(),
        forall|i: int| 0 <= i < place(run, key) ==> key_lt(#[trigger] run[i].key, key),
        place(run, key) < run.len() ==> !key_lt(run[place(run, key)].key, key),
    decreases run.len(),
{
    if run.len() > 0 && key_lt(run[0].key, key) {
        let rest = run.drop_first();
        lemma_place(rest, key);
        assert forall|i: int| 0 <= i < place(run, key) implies key_lt(#[trigger] run[i].key, key) by {
            if i > 0 {
                assert(rest[i - 1] == run[i]);
            }
        }
    }
}

/// The place of a key is the one that parts the smaller keys from the others.
pub proof fn lemma_place_unique(run: Seq<Version>, key: KeyView, p: int)
    requires
        0 <= p <= run.len(),
        forall|i: int| 0 <= i < p ==> key_lt(#[trigger] run[i].key, key),
        p < run.len() ==> !key_lt(run[p].key, key),
    ensures
        place(run, key) == p,
{
    lemma_place(run, key);
    let q = place(run, key);
    if q < p {
        assert(key_lt(run[q].key, key));
    }
    if p < q {
        assert(key_lt(run[p].key, key));
    }
}

/// In a sorted run nothing behind a key's place comes before it.
pub proof fn lemma_place_rest(run: Seq<Version>, key: KeyView)
    requires
        sorted(run),
    ensures
        forall|i: int| place(run, key) <= i < run.len() ==> !key_lt(#[trigger] run[i].key, key),
{
    lemma_place(run, key);
    let p = place(run, key);
    assert forall|i: int| p <= i < run.len() implies !key_lt(#[trigger] run[i].key, key) by {
        if p < i {
            lemma_key_ge_transitive(key, run[p].key, run[i].key);
        }
    }
}

/// A run stays sorted when a version is put in its place.
pub proof fn lemma_insert_sorted(run: Seq<Version>, v: Version)
    requires
        sorted(run),
    ensures
        sorted(run.insert(place(run, v.key), v)),
{
    lemma_place(run, v.key);
    lemma_place_rest(run, v.key);
    let p = place(run, v.key);
    let out = run.insert(p, v);
    assert forall|i: int, j: int| 0 <= i < j < out.len() implies !key_lt(out[j].key, out[i].key) by {
        let a = if i < p {
            i
        } else {
            i - 1
        };
        let b = if j < p {
            j
        } else {
            j - 1
        };
        if i == p {
            assert(out[j] == run[b]);
        } else if j == p {
            assert(out[i] == run[a]);
            lemma_key_lt_asymmetric(run[a].key, v.key);
        } else {
            assert(out[i] == run[a] && out[j] == run[b]);
        }
    }
}

/// Where the first match stands, and that nothing in front of it matches.
pub proof fn lemma_first_match(run: Seq<Version>, key: Seq<u8>, as_of: HlcTimestamp)
    ensures
        0 <= first_match(run, key, as_of) <= run.len(),
        forall|i: int|
            0 <= i < first_match(run, key, as_of) ==> !matches_at(#[trigger] run[i], key, as_of),
        first_match(run, key, as_of) < run.len() ==> matches_at(
            run[first_match(run, key, as_of)],
            key,
            as_of,
        ),
    decreases run.len(),
{
    if run.len() > 0 && !matches_at(run[0], key, as_of) {
        let rest = run.drop_first();
        lemma_first_match(rest, key, as_of);
        assert forall|i: int| 0 <= i < first_match(run, key, as_of) implies !matches_at(
            #[trigger] run[i],
            key,
            as_of,
        ) by {
            if i > 0 {
                assert(rest[i - 1] == run[i]);
            }
        }
    }
}

/// The first match is the only place that matches with none in front of it.
pub proof fn lemma_first_match_unique(run: Seq<Version>, key: Seq<u8>, as_of: HlcTimestamp, p: int)
    requires
        0 <= p <= run.len(),
        forall|i: int| 0 <= i < p ==> !matches_at(#[trigger] run[i], key, as_of),
        p < run.len() ==> matches_at(run[p], key, as_of),
    ensures
        first_match(run, key, as_of) == p,
{
    lemma_first_match(run, key, as_of);
    let q = first_match(run, key, as_of);
    if q < p {
        assert(!matches_at(run[q], key, as_of));
    }
    if p < q {
        assert(!matches_at(run[p], key, as_of));
    }
}

/// In a sorted run a read finds what stands in the place of the key at the
/// time of the read, if that is a version of the key.
pub proof fn lemma_visible_at_place(run: Seq<Version>, key: Seq<u8>, as_of: HlcTimestamp)
    requires
        sorted(run),
    ensures
        ({
            let p = place(run, KeyView { user: key, ts: as_of });
            visible(run, key, as_of) == (if p < run.len() && run[p].key.user == key {
                Some(run[p].value)
            } else {
                None
            })
        }),
{
    let target = KeyView { user: key, ts: as_of };
    let p = place(run, target);
    lemma_place(run, target);
    lemma_place_rest(run, target);
    lemma_first_match(run, key, as_of);
    bytes::lemma_lex_irreflexive(key);
    assert forall|i: int| 0 <= i < p implies !matches_at(#[trigger] run[i], key, as_of) by {
        assert(key_lt(run[i].key, target));
    }
    if p < run.len() && run[p].key.user == key {
        lemma_first_match_unique(run, key, as_of, p);
    } else {
        assert forall|i: int| 0 <= i < run.len() implies !matches_at(#[trigger] run[i], key, as_of) by {
            if p <= i && matches_at(run[i], key, as_of) {
                let head = run[p].key;
                lemma_key_lt_total(head, target);
                bytes::lemma_lex_total(head.user, key);
                assert(bytes::lex_lt(key, head.user));
                assert(!key_lt(run[i].key, head));
                assert(key_lt(run[i].key, head));
            }
        }
        lemma_first_match_unique(run, key, as_of, run.len() as int);
    }
}

/// A read at `as_of` gives the newest version that existed then: what it finds
/// is a version of the key, and no version of the key between it and `as_of`
/// is in the run; and it finds one whenever there is one.
pub proof fn lemma_reads_newest_version(run: Seq<Version>, key: Seq<u8>, as_of: HlcTimestamp)
    requires
        sorted(run),
    ensures
        match visible(run, key, as_of) {
            Some(value) => exists|i: int|
                0 <= i < run.len() && #[trigger] run[i].value == value && matches_at(
                    run[i],
                    key,
                    as_of,
                ) && forall|j: int|
                    0 <= j < run.len() && matches_at(#[trigger] run[j], key, as_of)
                        ==> timestamp::ts_le(run[j].key.ts, run[i].key.ts),
            None => forall|j: int|
                0 <= j < run.len() ==> !matches_at(#[trigger] run[j], key, as_of),
        },
{
    lemma_first_match(run, key, as_of);
    let i = first_match(run, key, as_of);
    if i < run.len() {
        assert forall|j: int|
            0 <= j < run.len() && matches_at(#[trigger] run[j], key, as_of) implies timestamp::ts_le(
            run[j].key.ts,
            run[i].key.ts,
        ) by {
            if j > i {
                assert(!key_lt(run[j].key, run[i].key));
            }
        }
        assert(run[i].value == run[i].value);
    }
}

/// Adding a version of a key that is newer than all others of that key makes
/// reads from then on see it, and leaves earlier reads and other keys alone.
pub proof fn lemma_write_then_read(
    run: Seq<Version>,
    v: Version,
    key: Seq<u8>,
    as_of: HlcTimestamp,
)
    requires
        sorted(run),
        forall|i: int|
            0 <= i < run.len() && (#[trigger] run[i]).key.user == v.key.user ==> timestamp::ts_le(
                run[i].key.ts,
                v.key.ts,
            ),
    ensures
        visible(run.insert(place(run, v.key), v), key, as_of) == (if matches_at(v, key, as_of) {
            Some(v.value)
        } else {
            visible(run, key, as_of)
        }),
{
    let p = place(run, v.key);
    let out = run.insert(p, v);
    lemma_place(run, v.key);
    lemma_first_match(run, key, as_of);
    let f = first_match(run, key, as_of);
    if matches_at(v, key, as_of) {
        assert forall|i: int| 0 <= i < p implies !matches_at(#[trigger] out[i], key, as_of) by {
            assert(out[i] == run[i]);
            assert(key_lt(run[i].key, v.key));
            bytes::lemma_lex_irreflexive(key);
        }
        lemma_first_match_unique(out, key, as_of, p);
    } else {
        let g = if f < p {
            f
        } else {
            f + 1
        };
        assert forall|i: int| 0 <= i < g implies !matches_at(#[trigger] out[i], key, as_of) by {
            if i < p {
                assert(out[i] == run[i]);
            } else if i > p {
                assert(out[i] == run[i - 1]);
            }
        }
        if g < out.len() {
            if f < p {
                assert(out[g] == run[f]);
            } else {
                assert(out[g] == run[f]);
            }
        }
        lemma_first_match_unique(out, key, as_of, g);
    }
}

/// Versions that a scan does not show add nothing to what it shows.
pub proof fn lemma_scan_skips(
    run: Seq<Version>,
    n: int,
    m: int,
    start: Seq<u8>,
    end: Seq<u8>,
    as_of: HlcTimestamp,
)
    requires
        0 <= n <= m,
        forall|i: int| n <= i < m ==> !#[trigger] shown(run, i, start, end, as_of),
    ensures
        scan_first(run, m, start, end, as_of) == scan_first(run, n, start, end, as_of),
    decreases m - n,
{
    if n < m {
        lemma_scan_skips(run, n, m - 1, start, end, as_of);
        assert(!shown(run, m - 1, start, end, as_of));
    }
}

/// What a scan shows is in ascending key order, each user key once, within the
/// bounds, and is what a read of that key at that time finds.
pub proof fn lemma_scan_agrees_with_reads(
    run: Seq<Version>,
    n: int,
    start: Seq<u8>,
    end: Seq<u8>,
    as_of: HlcTimestamp,
)
    requires
        sorted(run),
        0 <= n <= run.len(),
    ensures
        ({
            let hits = scan_first(run, n, start, end, as_of);
            &&& forall|i: int, j: int|
                0 <= i < j < hits.len() ==> bytes::lex_lt(
                    (#[trigger] hits[i]).0,
                    (#[trigger] hits[j]).0,
                )
            &&& forall|i: int|
                0 <= i < hits.len() ==> {
                    &&& in_bounds((#[trigger] hits[i]).0, start, end)
                    &&& visible(run, hits[i].0, as_of) == Some(hits[i].1)
                }
            &&& forall|i: int|
                0 <= i < hits.len() ==> exists|j: int|
                    0 <= j < n && (#[trigger] run[j]).key.user == (#[trigger] hits[i]).0
            &&& forall|k: Seq<u8>|
                in_bounds(k, start, end) && first_match(run, k, as_of) < n ==> exists|i: int|
                    0 <= i < hits.len() && (#[trigger] hits[i]).0 == k
        }),
    decreases n,
{
    let hits = scan_first(run, n, start, end, as_of);
    if n > 0 {
        lemma_scan_agrees_with_reads(run, n - 1, start, end, as_of);
        let front = scan_first(run, n - 1, start, end, as_of);
        let last = run[n - 1].key.user;
        if shown(run, n - 1, start, end, as_of) {
            assert(hits == front.push((last, run[n - 1].value)));
            lemma_first_match_unique(run, last, as_of, n - 1);
            assert forall|i: int, j: int| 0 <= i < j < hits.len() implies bytes::lex_lt(
                (#[trigger] hits[i]).0,
                (#[trigger] hits[j]).0,
            ) by {
                if j == front.len() {
                    let u = front[i].0;
                    let w = choose|w: int| 0 <= w < n - 1 && (#[trigger] run[w]).key.user == u;
                    bytes::lemma_lex_total(u, last);
                    assert(!key_lt(run[n - 1].key, run[w].key));
                    if u == last {
                        lemma_first_match(run, u, as_of);
                        assert(visible(run, u, as_of) == Some(front[i].1));
                        assert(false) by {
                            let f = first_match(run, u, as_of);
                            assert(f == n - 1);
                            lemma_hit_below(run, n - 1, start, end, as_of, i);
                        }
                    }
                } else {
                    assert(hits[i] == front[i] && hits[j] == front[j]);
                }
            }
            assert forall|i: int| 0 <= i < hits.len() implies in_bounds(
                (#[trigger] hits[i]).0,
                start,
                end,
            ) && visible(run, hits[i].0, as_of) == Some(hits[i].1) by {
                if i < front.len() {
                    assert(hits[i] == front[i]);
                }
            }
            assert forall|i: int| 0 <= i < hits.len() implies exists|j: int|
                0 <= j < n && (#[trigger] run[j]).key.user == (#[trigger] hits[i]).0 by {
                if i < front.len() {
                    assert(hits[i] == front[i]);
                    let w = choose|w: int|
                        0 <= w < n - 1 && (#[trigger] run[w]).key.user == front[i].0;
                    assert(run[w].key.user == hits[i].0);
                } else {
                    assert(run[n - 1].key.user == hits[i].0);
                }
            }
            assert forall|k: Seq<u8>|
                in_bounds(k, start, end) && first_match(run, k, as_of) < n implies exists|i: int|
                0 <= i < hits.len() && (#[trigger] hits[i]).0 == k by {
                lemma_first_match(run, k, as_of);
                if first_match(run, k, as_of) < n - 1 {
                    let i = choose|i: int| 0 <= i < front.len() && (#[trigger] front[i]).0 == k;
                    assert(hits[i].0 == k);
                } else {
                    assert(hits[front.len() as int].0 == k);
                }
            }
        } else {
            assert forall|k: Seq<u8>|
                in_bounds(k, start, end) && first_match(run, k, as_of) < n implies exists|i: int|
                0 <= i < hits.len() && (#[trigger] hits[i]).0 == k by {
                lemma_first_match(run, k, as_of);
                if first_match(run, k, as_of) == n - 1 {
                    assert(shown(run, n - 1, start, end, as_of));
                }
            }
        }
    } else {
        assert forall|k: Seq<u8>| in_bounds(k, start, end) implies first_match(run, k, as_of)
            >= n by {
            lemma_first_match(run, k, as_of);
        }
    }
}

/// The version behind a hit of the first `n` versions is one of them.
proof fn lemma_hit_below(
    run: Seq<Version>,
    n: int,
    start: Seq<u8>,
    end: Seq<u8>,
    as_of: HlcTimestamp,
    i: int,
)
    requires
        0 <= n <= run.len(),
        0 <= i < scan_first(run, n, start, end, as_of).len(),
    ensures
        first_match(run, scan_first(run, n, start, end, as_of)[i].0, as_of) < n,
    decreases n,
{
    if n > 0 {
        let front = scan_first(run, n - 1, start, end, as_of);
        if i < front.len() {
            lemma_hit_below(run, n - 1, start, end, as_of, i);
        } else {
            lemma_first_match_unique(run, run[n - 1].key.user, as_of, n - 1);
        }
    }
}

/// `last` is the last user key that a scan has shown of the first `p` versions.
pub open spec fn scan_memory(
    run: Seq<Version>,
    p: int,
    last: Option<Seq<u8>>,
    start: Seq<u8>,
    end: Seq<u8>,
    as_of: HlcTimestamp,
) -> bool {
    &&& forall|j: int|
        0 <= j < p && matches_at(#[trigger] run[j], run[j].key.user, as_of) && in_bounds(
            run[j].key.user,
            start,
            end,
        ) ==> last is Some && !bytes::lex_lt(last->0, run[j].key.user)
    &&& last matches Some(u) ==> exists|j: int|
        0 <= j < p && matches_at(#[trigger] run[j], u, as_of)
}

/// The last user key that was shown tells whether the next one was.
pub proof fn lemma_scan_memory(
    run: Seq<Version>,
    p: int,
    last: Option<Seq<u8>>,
    start: Seq<u8>,
    end: Seq<u8>,
    as_of: HlcTimestamp,
)
    requires
        sorted(run),
        0 <= p < run.len(),
        scan_memory(run, p, last, start, end, as_of),
        in_bounds(run[p].key.user, start, end),
    ensures
        (last == Some(run[p].key.user)) == (exists|j: int|
            0 <= j < p && matches_at(#[trigger] run[j], run[p].key.user, as_of)),
        last matches Some(u) ==> !bytes::lex_lt(run[p].key.user, u),
{
    let user = run[p].key.user;
    if let Some(u) = last {
        let j = choose|j: int| 0 <= j < p && matches_at(#[trigger] run[j], u, as_of);
        assert(!key_lt(run[p].key, run[j].key));
    }
    if exists|j: int| 0 <= j < p && matches_at(#[trigger] run[j], user, as_of) {
        let j = choose|j: int| 0 <= j < p && matches_at(#[trigger] run[j], user, as_of);
        assert(matches_at(run[j], run[j].key.user, as_of));
        bytes::lemma_lex_total(user, last->0);
    }
}

/// What the last user key that was shown becomes when a scan goes on.
pub proof fn lemma_scan_memory_step(
    run: Seq<Version>,
    p: int,
    q: int,
    last: Option<Seq<u8>>,
    new_last: Option<Seq<u8>>,
    start: Seq<u8>,
    end: Seq<u8>,
    as_of: HlcTimestamp,
)
    requires
        sorted(run),
        0 <= p < q <= run.len(),
        scan_memory(run, p, last, start, end, as_of),
        ({
            ||| new_last == last && q == p + 1 && !in_bounds(run[p].key.user, start, end)
            ||| new_last == last && forall|i: int|
                p <= i < q ==> !#[trigger] matches_at(run[i], run[i].key.user, as_of)
            ||| new_last == last && last == Some(run[p].key.user) && q == p + 1
            ||| new_last == Some(run[p].key.user) && q == p + 1 && matches_at(
                run[p],
                run[p].key.user,
                as_of,
            )
        }),
    ensures
        scan_memory(run, q, new_last, start, end, as_of),
{
    let user = run[p].key.user;
    assert forall|j: int|
        0 <= j < q && matches_at(#[trigger] run[j], run[j].key.user, as_of) && in_bounds(
            run[j].key.user,
            start,
            end,
        ) implies new_last is Some && !bytes::lex_lt(new_last->0, run[j].key.user) by {
        bytes::lemma_lex_irreflexive(user);
        if j < p && new_last != last {
            assert(!key_lt(run[p].key, run[j].key));
            bytes::lemma_lex_total(run[j].key.user, user);
            if bytes::lex_lt(run[j].key.user, user) {
                bytes::lemma_lex_asymmetric(run[j].key.user, user);
            }
        }
    }
    if let Some(u) = new_last {
        if new_last == last {
            let j = choose|j: int| 0 <= j < p && matches_at(#[trigger] run[j], u, as_of);
            assert(matches_at(run[j], u, as_of));
        } else {
            assert(matches_at(run[p], u, as_of));
        }
    }
}

/// What a scan of versions in key order shows.
pub fn scan_versions(
    versions: &[(MemKey, Option<Vec<u8>>)],
    start: &[u8],
    end: &[u8],
    as_of: HlcTimestamp,
) -> (r: Vec<(Vec<u8>, Option<Vec<u8>>)>)
    requires
        sorted(version_views(versions@)),
    ensures
        hit_views(r@) == scanned(version_views(versions@), start@, end@, as_of),
{
    let ghost run = version_views(versions@);
    let mut results: Vec<(Vec<u8>, Option<Vec<u8>>)> = Vec::new();
    let mut last: Option<Vec<u8>> = None;
    let mut p: usize = 0;
    assert(hit_views(results@) =~= Seq::empty());
    while p < versions.len()
        invariant_except_break
            hit_views(results@) == scan_first(run, p as int, start@, end@, as_of),
        invariant
            p <= versions@.len(),
            run == version_views(versions@),
            sorted(run),
            scan_memory(run, p as int, bytes::value_view(last), start@, end@, as_of),
        ensures
            hit_views(results@) == scanned(run, start@, end@, as_of),
        decreases versions@.len() - p,
    {
        let item = &versions[p];
        let user = item.0.user_key.as_slice();
        assert(run[p as int] == version_view(*item));
        if end.len() > 0 && !bytes::bytes_lt(user, end) {
            proof {
                assert forall|i: int| p <= i < run.len() implies !#[trigger] shown(
                    run,
                    i,
                    start@,
                    end@,
                    as_of,
                ) by {
                    if p < i && bytes::lex_lt(run[i].key.user, end@) {
                        bytes::lemma_lex_total(user@, run[i].key.user);
                        assert(!key_lt(run[i].key, run[p as int].key));
                        if user@ != run[i].key.user {
                            bytes::lemma_lex_transitive(user@, run[i].key.user, end@);
                        }
                    }
                }
                lemma_scan_skips(run, p as int, run.len() as int, start@, end@, as_of);
            }
            break;
        }
        let ghost old_last = bytes::value_view(last);
        if !bytes::bytes_lt(user, start) {
            let seen: bool = match &last {
                Some(l) => bytes::bytes_eq(l.as_slice(), user),
                None => false,
            };
            proof {
                lemma_scan_memory(run, p as int, old_last, start@, end@, as_of);
            }
            if !seen && item.0.ts.is_at_or_before(&as_of) {
                assert(shown(run, p as int, start@, end@, as_of));
                let ghost before = hit_views(results@);
                let found = (bytes::copy_bytes(user), bytes::copy_value(&item.1));
                let ghost hit = (found.0@, bytes::value_view(found.1));
                results.push(found);
                assert(hit_views(results@) =~= before.push(hit));
                last = Some(bytes::copy_bytes(user));
            }
        }
        proof {
            lemma_scan_memory_step(
                run,
                p as int,
                p + 1,
                old_last,
                bytes::value_view(last),
                start@,
                end@,
                as_of,
            );
        }
        p = p + 1;
    }
    results
}

} // verus!
