//! What comes before what, and what that makes of ranges and of recent writes.
use crate::bytes;
use crate::storage::key;
use crate::storage::lsm_laws;
use crate::storage::lsm_model;
use crate::storage::lsm_model::LsmView;
use crate::storage::reader::TableView;
use crate::storage::scan;
use crate::storage::timestamp;
use crate::storage::timestamp::HlcTimestamp;
use crate::storage::wal::RecordView;
use vstd::prelude::*;

verus! {

// ----------------------------------------------------------------------
// Bytes
// ----------------------------------------------------------------------
/// A byte string comes before another if and only if it goes on as the other does up to
/// some place, and there has a smaller byte or ends where the other does not.
pub proof fn lemma_first_difference_decides(a: Seq<u8>, b: Seq<u8>, p: int)
    requires
        0 <= p <= a.len(),
        p <= b.len(),
        forall|i: int| 0 <= i < p ==> #[trigger] a[i] == b[i],
        p == a.len() || p == b.len() || a[p] != b[p],
    ensures
        bytes::lex_lt(a, b) <==> (p == a.len() && p < b.len()) || (p < a.len() && p < b.len() && a[p]
            < b[p]),
    decreases p,
{
    if p > 0 {
        let x = a.drop_first();
        let y = b.drop_first();
        assert(a[0] == b[0]);
        assert forall|i: int| 0 <= i < p - 1 implies #[trigger] x[i] == y[i] by {
            assert(x[i] == a[i + 1] && y[i] == b[i + 1]);
        }
        lemma_first_difference_decides(x, y, p - 1);
    }
}

// ----------------------------------------------------------------------
// Times
// ----------------------------------------------------------------------
/// Times are in one order: of two different ones exactly one is earlier, and what is
/// earlier than an earlier one is earlier. The clock decides, and where it shows the
/// same the counter does.
pub proof fn lemma_times_are_in_order(a: HlcTimestamp, b: HlcTimestamp, c: HlcTimestamp)
    ensures
        !timestamp::ts_lt(a, a),
        timestamp::ts_lt(a, b) ==> !timestamp::ts_lt(b, a),
        timestamp::ts_lt(a, b) && timestamp::ts_lt(b, c) ==> timestamp::ts_lt(a, c),
        a == b || timestamp::ts_lt(a, b) || timestamp::ts_lt(b, a),
        a.physical < b.physical ==> timestamp::ts_lt(a, b),
        a.physical == b.physical && a.logical < b.logical ==> timestamp::ts_lt(a, b),
        timestamp::ts_le(a, b) <==> !timestamp::ts_lt(b, a),
        timestamp::ts_le(a, b) && timestamp::ts_le(b, a) ==> a == b,
{
}

// ----------------------------------------------------------------------
// Versions
// ----------------------------------------------------------------------
/// Versions stand in the order of their keys, and of one key the later ones first.
pub proof fn lemma_versions_are_in_order(a: key::KeyView, b: key::KeyView)
    ensures
        bytes::lex_lt(a.user, b.user) ==> key::key_lt(a, b) && !key::key_lt(b, a),
        a.user == b.user && (a.ts.physical > b.ts.physical || (a.ts.physical == b.ts.physical
            && a.ts.logical > b.ts.logical)) ==> key::key_lt(a, b) && !key::key_lt(b, a),
        a == b ==> !key::key_lt(a, b),
{
    bytes::lemma_lex_irreflexive(a.user);
    if bytes::lex_lt(a.user, b.user) {
        bytes::lemma_lex_asymmetric(a.user, b.user);
    }
}

/// A version is there for a read of its key from its own time on, and for no other.
pub proof fn lemma_version_is_there_from_its_time(v: key::Version, k: Seq<u8>, as_of: HlcTimestamp)
    ensures
        key::matches_at(v, k, as_of) <==> v.key.user == k && (v.key.ts.physical < as_of.physical
            || (v.key.ts.physical == as_of.physical && v.key.ts.logical <= as_of.logical)),
{
}

// ----------------------------------------------------------------------
// Ranges
// ----------------------------------------------------------------------
/// A scan gives the keys from the first one of its range on up to, but not with, the
/// end; where no end is given all that follow. It gives them in their order, each once,
/// with what a read gives.
pub proof fn lemma_scan_gives_its_range(
    s: LsmView,
    hits: Seq<(Seq<u8>, Seq<u8>)>,
    start: Seq<u8>,
    end: Seq<u8>,
    as_of: HlcTimestamp,
    k: Seq<u8>,
    v: Seq<u8>,
)
    requires
        forall|i: int, k: Seq<u8>|
            0 <= i < s.levels.len() ==> #[trigger] lsm_laws::clear(s.levels[i], k, as_of),
        scan::is_scan(hits, s.runs(), start, end, as_of),
    ensures
        hits.contains((k, v)) <==> (k == start || bytes::lex_lt(start, k)) && (end.len() == 0
            || bytes::lex_lt(k, end)) && s.get(k, as_of) == Some(v),
        forall|i: int, j: int|
            0 <= i < j < hits.len() ==> bytes::lex_lt(
                (#[trigger] hits[i]).0,
                (#[trigger] hits[j]).0,
            ),
{
    lsm_laws::lemma_scan_agrees_with_get(s, hits, start, end, as_of);
    bytes::lemma_lex_total(k, start);
    bytes::lemma_lex_irreflexive(k);
    if bytes::lex_lt(start, k) {
        bytes::lemma_lex_asymmetric(start, k);
    }
    assert(hits.contains((k, v)) <==> key::in_bounds(k, start, end) && s.get(k, as_of) == Some(v));
}

/// Scans of two ranges of which the second begins where the first ends give, one behind
/// the other, what one scan of both gives: no key is lost between them, and none comes
/// twice.
pub proof fn lemma_scans_join(
    runs: Seq<Seq<key::Version>>,
    a: Seq<u8>,
    b: Seq<u8>,
    c: Seq<u8>,
    as_of: HlcTimestamp,
    first: Seq<(Seq<u8>, Seq<u8>)>,
    second: Seq<(Seq<u8>, Seq<u8>)>,
    whole: Seq<(Seq<u8>, Seq<u8>)>,
)
    requires
        scan::is_scan(first, runs, a, b, as_of),
        scan::is_scan(second, runs, b, c, as_of),
        scan::is_scan(whole, runs, a, c, as_of),
        b.len() > 0,
        !bytes::lex_lt(b, a),
        c.len() == 0 || !bytes::lex_lt(c, b),
    ensures
        whole == first + second,
{
    let both = first + second;
    assert forall|i: int, j: int| 0 <= i < j < both.len() implies bytes::lex_lt(
        (#[trigger] both[i]).0,
        (#[trigger] both[j]).0,
    ) by {
        if i < first.len() {
            assert(both[i] == first[i]);
            if j < first.len() {
                assert(both[j] == first[j]);
            } else {
                let x = first[i];
                let y = second[j - first.len()];
                assert(both[j] == y);
                assert(first.contains((x.0, x.1)));
                assert(second.contains((y.0, y.1)));
                assert(bytes::lex_lt(x.0, b) && !bytes::lex_lt(y.0, b));
                bytes::lemma_lex_total(b, y.0);
                if bytes::lex_lt(b, y.0) {
                    bytes::lemma_lex_transitive(x.0, b, y.0);
                }
            }
        } else {
            assert(both[i] == second[i - first.len()]);
            assert(both[j] == second[j - first.len()]);
        }
    }
    assert forall|k: Seq<u8>, v: Seq<u8>| #[trigger] both.contains((k, v)) <==> whole.contains(
        (k, v),
    ) by {
        let x = (k, v);
        if first.contains(x) {
            let i = choose|i: int| 0 <= i < first.len() && first[i] == x;
            assert(both[i] == x);
        }
        if second.contains(x) {
            let i = choose|i: int| 0 <= i < second.len() && second[i] == x;
            assert(both[first.len() + i] == x);
        }
        if both.contains(x) {
            let i = choose|i: int| 0 <= i < both.len() && both[i] == x;
            if i < first.len() {
                assert(first[i] == x);
            } else {
                assert(second[i - first.len()] == x);
            }
        }
        assert(both.contains(x) <==> first.contains(x) || second.contains(x));
        assert(first.contains((k, v)) ==> bytes::lex_lt(k, b));
        if bytes::lex_lt(k, b) && c.len() > 0 {
            bytes::lemma_lex_total(b, c);
            if bytes::lex_lt(b, c) {
                bytes::lemma_lex_transitive(k, b, c);
            }
        }
        if !bytes::lex_lt(k, b) && bytes::lex_lt(k, a) {
            bytes::lemma_lex_total(a, b);
            if bytes::lex_lt(a, b) {
                bytes::lemma_lex_transitive(k, a, b);
            }
        }
    }
    assert forall|k: Seq<u8>, v: Seq<u8>| #[trigger] both.contains((k, v)) <==> key::in_bounds(
        k,
        a,
        c,
    ) && crate::storage::compaction_laws::first_visible(runs, k, as_of) == Some(Some(v)) by {
        assert(both.contains((k, v)) <==> whole.contains((k, v)));
    }
    assert(scan::is_scan(both, runs, a, c, as_of));
    scan::lemma_scan_unique(whole, both, runs, a, c, as_of);
}

// ----------------------------------------------------------------------
// Recent writes
// ----------------------------------------------------------------------
/// A put that fills the recent writes up to the size that was set puts them away as a
/// table, in front of the others; another leaves the tables as they are. So behind a put
/// the recent writes are always smaller than that size, or there are none.
pub proof fn lemma_recent_writes_stay_small<F: Fn(usize) -> (usize, usize)>(
    f: F,
    s: LsmView,
    r: RecordView,
    t: LsmView,
)
    requires
        lsm_model::after_write(f, s, r, t),
        !r.is_delete,
        s.levels.len() > 0,
        s.active_bytes + r.key.len() + r.value.len() <= usize::MAX,
    ensures
        t.active.len() == 0 || t.active_bytes < s.max_memtable_size,
        s.active_bytes + r.key.len() + r.value.len() < s.max_memtable_size ==> t.levels == s.levels
            && t.active_bytes == s.active_bytes + r.key.len() + r.value.len() && t.active.len()
            == s.active.len() + 1,
        s.active_bytes + r.key.len() + r.value.len() >= s.max_memtable_size ==> t.active.len() == 0
            && t.active_bytes == 0 && t.levels.len() == s.levels.len() && t.levels[0].len()
            == s.levels[0].len() + 1 && t.levels[0].skip(1) == s.levels[0],
{
    let w = s.written(r);
    assert(w.active_bytes == s.active_bytes + r.key.len() + r.value.len());
    let v = key::Version {
        key: key::KeyView { user: r.key, ts: r.ts },
        value: Some(r.value),
    };
    key::lemma_place(s.active, v.key);
    if w.active_bytes >= s.max_memtable_size {
        let made = choose|made: TableView|
            #![trigger w.flushed(made)]
            lsm_model::built(f, made, w.active) && t == w.flushed(made);
        assert(t.levels[0].skip(1) =~= s.levels[0]);
    }
}

} // verus!
