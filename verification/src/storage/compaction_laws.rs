//! What compaction leaves unchanged for readers.
use crate::bytes;
use crate::storage::block;
use crate::storage::compaction;
use crate::storage::key;
use crate::storage::key::Version;
use crate::storage::reader;
use crate::storage::sstable;
use crate::storage::timestamp;
use crate::storage::timestamp::HlcTimestamp;
use vstd::prelude::*;

verus! {

/// What a read returns for what it found: a deletion reads as nothing.
pub open spec fn read(found: Option<Option<Seq<u8>>>) -> Option<Seq<u8>> {
    match found {
        Some(v) => v,
        None => None,
    }
}

/// What a read finds in several runs: the first one that has something decides.
pub open spec fn first_visible(
    runs: Seq<Seq<Version>>,
    key: Seq<u8>,
    as_of: HlcTimestamp,
) -> Option<Option<Seq<u8>>>
    decreases runs.len(),
{
    if runs.len() == 0 {
        None
    } else {
        match key::visible(runs[0], key, as_of) {
            Some(v) => Some(v),
            None => first_visible(runs.drop_first(), key, as_of),
        }
    }
}

/// Each run is in key order.
pub open spec fn all_sorted(runs: Seq<Seq<Version>>) -> bool {
    forall|i: int| 0 <= i < runs.len() ==> key::sorted(#[trigger] runs[i])
}

/// A version in an earlier run is not older than one of the same user key in a
/// later run.
pub open spec fn newest_first(runs: Seq<Seq<Version>>) -> bool {
    forall|i: int, j: int, p: int, q: int|
        #![trigger runs[i][p], runs[j][q]]
        0 <= i < j < runs.len() && 0 <= p < runs[i].len() && 0 <= q < runs[j].len()
            && runs[i][p].key.user == runs[j][q].key.user ==> timestamp::ts_le(
            runs[j][q].key.ts,
            runs[i][p].key.ts,
        )
}

/// The first run that has something is the one that decides.
proof fn lemma_first_visible(
    runs: Seq<Seq<Version>>,
    key: Seq<u8>,
    as_of: HlcTimestamp,
    i: int,
)
    requires
        0 <= i < runs.len(),
        key::visible(runs[i], key, as_of) is Some,
        forall|j: int| 0 <= j < i ==> key::visible(#[trigger] runs[j], key, as_of) is None,
    ensures
        first_visible(runs, key, as_of) == key::visible(runs[i], key, as_of),
    decreases runs.len(),
{
    if i > 0 {
        assert(key::visible(runs[0], key, as_of) is None);
        let rest = runs.drop_first();
        assert forall|j: int| 0 <= j < i - 1 implies key::visible(
            #[trigger] rest[j],
            key,
            as_of,
        ) is None by {
            assert(rest[j] == runs[j + 1]);
        }
        assert(rest[i - 1] == runs[i]);
        lemma_first_visible(rest, key, as_of, i - 1);
    }
}

proof fn lemma_nothing_first_visible(runs: Seq<Seq<Version>>, key: Seq<u8>, as_of: HlcTimestamp)
    requires
        forall|j: int|
            0 <= j < runs.len() ==> key::visible(#[trigger] runs[j], key, as_of) is None,
    ensures
        first_visible(runs, key, as_of) is None,
    decreases runs.len(),
{
    if runs.len() > 0 {
        assert(key::visible(runs[0], key, as_of) is None);
        let rest = runs.drop_first();
        assert forall|j: int| 0 <= j < rest.len() implies key::visible(
            #[trigger] rest[j],
            key,
            as_of,
        ) is None by {
            assert(rest[j] == runs[j + 1]);
        }
        lemma_nothing_first_visible(rest, key, as_of);
    }
}

/// Two lists of runs of which each shows the same show the same.
proof fn lemma_same_first_visible(
    a: Seq<Seq<Version>>,
    b: Seq<Seq<Version>>,
    key: Seq<u8>,
    as_of: HlcTimestamp,
)
    requires
        a.len() == b.len(),
        forall|i: int|
            0 <= i < a.len() ==> key::visible(#[trigger] a[i], key, as_of) == key::visible(
                b[i],
                key,
                as_of,
            ),
    ensures
        first_visible(a, key, as_of) == first_visible(b, key, as_of),
    decreases a.len(),
{
    if a.len() > 0 {
        let x = a.drop_first();
        let y = b.drop_first();
        assert(key::visible(a[0], key, as_of) == key::visible(b[0], key, as_of));
        assert forall|i: int| 0 <= i < x.len() implies key::visible(#[trigger] x[i], key, as_of)
            == key::visible(y[i], key, as_of) by {
            assert(x[i] == a[i + 1]);
            assert(y[i] == b[i + 1]);
        }
        lemma_same_first_visible(x, y, key, as_of);
    }
}

/// A read of a run without a first version that it does not want.
proof fn lemma_visible_drop_first(run: Seq<Version>, key: Seq<u8>, as_of: HlcTimestamp)
    requires
        run.len() > 0,
        !key::matches_at(run[0], key, as_of),
    ensures
        key::visible(run.drop_first(), key, as_of) == key::visible(run, key, as_of),
{
    key::lemma_first_match(run.drop_first(), key, as_of);
    let f = key::first_match(run, key, as_of);
    if f < run.len() {
        assert(run.drop_first()[f - 1] == run[f]);
    }
}

/// Taking the first version of a run keeps the runs in order.
proof fn lemma_advance_keeps_order(runs: Seq<Seq<Version>>, i: int)
    requires
        0 <= i < runs.len(),
        runs[i].len() > 0,
        all_sorted(runs),
        newest_first(runs),
    ensures
        all_sorted(compaction::advance(runs, i)),
        newest_first(compaction::advance(runs, i)),
{
    let out = compaction::advance(runs, i);
    assert forall|j: int| 0 <= j < out.len() implies key::sorted(#[trigger] out[j]) by {
        assert(key::sorted(runs[j]));
        if j == i {
            assert forall|p: int, q: int| 0 <= p < q < out[j].len() implies !key::key_lt(
                out[j][q].key,
                out[j][p].key,
            ) by {
                assert(out[j][p] == runs[i][p + 1]);
                assert(out[j][q] == runs[i][q + 1]);
            }
        }
    }
    assert forall|a: int, b: int, p: int, q: int|
        #![trigger out[a][p], out[b][q]]
        0 <= a < b < out.len() && 0 <= p < out[a].len() && 0 <= q < out[b].len()
            && out[a][p].key.user == out[b][q].key.user implies timestamp::ts_le(
        out[b][q].key.ts,
        out[a][p].key.ts,
    ) by {
        let p2 = if a == i {
            p + 1
        } else {
            p
        };
        let q2 = if b == i {
            q + 1
        } else {
            q
        };
        assert(out[a][p] == runs[a][p2]);
        assert(out[b][q] == runs[b][q2]);
    }
}

/// A merge reads as the runs do, where earlier runs hold the newer versions.
pub proof fn lemma_merge_reads(runs: Seq<Seq<Version>>, key: Seq<u8>, as_of: HlcTimestamp)
    requires
        all_sorted(runs),
        newest_first(runs),
    ensures
        key::visible(compaction::merge(runs), key, as_of) == first_visible(runs, key, as_of),
    decreases compaction::total(runs),
{
    compaction::lemma_min_head(runs, runs.len() as int);
    match compaction::min_head(runs, runs.len() as int) {
        None => {
            assert forall|j: int| 0 <= j < runs.len() implies key::visible(
                #[trigger] runs[j],
                key,
                as_of,
            ) is None by {
                assert(runs[j].len() == 0);
                key::lemma_first_match(runs[j], key, as_of);
            }
            lemma_nothing_first_visible(runs, key, as_of);
            key::lemma_first_match(compaction::merge(runs), key, as_of);
        },
        Some(i) => {
            let v = runs[i][0];
            let rest = compaction::advance(runs, i);
            let m = compaction::merge(runs);
            assert(m == seq![v] + compaction::merge(rest));
            if key::matches_at(v, key, as_of) {
                key::lemma_first_match_unique(m, key, as_of, 0);
                key::lemma_first_match_unique(runs[i], key, as_of, 0);
                assert forall|j: int| 0 <= j < i implies key::visible(
                    #[trigger] runs[j],
                    key,
                    as_of,
                ) is None by {
                    key::lemma_first_match(runs[j], key, as_of);
                    let f = key::first_match(runs[j], key, as_of);
                    if f < runs[j].len() {
                        let u = runs[j][f];
                        assert(timestamp::ts_le(runs[i][0].key.ts, runs[j][f].key.ts));
                        assert(key::key_lt(v.key, runs[j][0].key));
                        assert(key::sorted(runs[j]));
                        if f > 0 {
                            assert(!key::key_lt(runs[j][f].key, runs[j][0].key));
                        }
                        bytes::lemma_lex_irreflexive(key);
                        key::lemma_key_lt_total(runs[j][0].key, u.key);
                        if runs[j][0].key != u.key {
                            key::lemma_key_lt_transitive(v.key, runs[j][0].key, u.key);
                        }
                        assert(false);
                    }
                }
                lemma_first_visible(runs, key, as_of, i);
            } else {
                compaction::lemma_total_advance(runs, i);
                lemma_advance_keeps_order(runs, i);
                lemma_merge_reads(rest, key, as_of);
                assert(m.drop_first() =~= compaction::merge(rest));
                lemma_visible_drop_first(m, key, as_of);
                assert forall|j: int| 0 <= j < runs.len() implies key::visible(
                    #[trigger] runs[j],
                    key,
                    as_of,
                ) == key::visible(rest[j], key, as_of) by {
                    if j == i {
                        lemma_visible_drop_first(runs[i], key, as_of);
                    }
                }
                lemma_same_first_visible(runs, rest, key, as_of);
            }
        },
    }
}

/// A merge of sorted runs is sorted.
pub proof fn lemma_merge_sorted(runs: Seq<Seq<Version>>)
    requires
        all_sorted(runs),
    ensures
        key::sorted(compaction::merge(runs)),
        forall|p: int|
            0 <= p < compaction::merge(runs).len() ==> exists|i: int|
                0 <= i < runs.len() && (#[trigger] runs[i]).len() > 0 && !key::key_lt(
                    (#[trigger] compaction::merge(runs)[p]).key,
                    runs[i][0].key,
                ),
    decreases compaction::total(runs),
{
    compaction::lemma_min_head(runs, runs.len() as int);
    if let Some(i) = compaction::min_head(runs, runs.len() as int) {
        let v = runs[i][0];
        let rest = compaction::advance(runs, i);
        let m = compaction::merge(runs);
        let tail = compaction::merge(rest);
        compaction::lemma_total_advance(runs, i);
        assert forall|j: int| 0 <= j < rest.len() implies key::sorted(#[trigger] rest[j]) by {
            assert(key::sorted(runs[j]));
            if j == i {
                assert forall|p: int, q: int| 0 <= p < q < rest[j].len() implies !key::key_lt(
                    rest[j][q].key,
                    rest[j][p].key,
                ) by {
                    assert(rest[j][p] == runs[i][p + 1]);
                    assert(rest[j][q] == runs[i][q + 1]);
                }
            }
        }
        lemma_merge_sorted(rest);
        assert(m == seq![v] + tail);
        assert forall|p: int| 0 <= p < tail.len() implies !key::key_lt(
            (#[trigger] tail[p]).key,
            v.key,
        ) by {
            let j = choose|j: int|
                0 <= j < rest.len() && (#[trigger] rest[j]).len() > 0 && !key::key_lt(
                    tail[p].key,
                    rest[j][0].key,
                );
            if j == i {
                assert(key::sorted(runs[i]));
                assert(rest[i][0] == runs[i][1]);
                assert(!key::key_lt(runs[i][1].key, runs[i][0].key));
            } else {
                assert(runs[j].len() > 0);
            }
            key::lemma_key_ge_transitive(v.key, rest[j][0].key, tail[p].key);
        }
        assert forall|p: int, q: int| 0 <= p < q < m.len() implies !key::key_lt(m[q].key, m[p].key) by {
            assert(m[q] == tail[q - 1]);
            if p > 0 {
                assert(m[p] == tail[p - 1]);
            }
        }
        bytes::lemma_lex_irreflexive(v.key.user);
        assert forall|p: int| 0 <= p < m.len() implies exists|j: int|
            0 <= j < runs.len() && (#[trigger] runs[j]).len() > 0 && !key::key_lt(
                (#[trigger] m[p]).key,
                runs[j][0].key,
            ) by {
            assert(runs[i].len() > 0);
            if p > 0 {
                assert(m[p] == tail[p - 1]);
            }
        }
    }
}

/// Dropping versions changes no read at or above the watermark; from a level
/// that is not the last not even whether a deletion is found.
pub proof fn lemma_survivors_read(
    run: Seq<Version>,
    watermark: HlcTimestamp,
    is_last_level: bool,
    key: Seq<u8>,
    as_of: HlcTimestamp,
)
    requires
        key::sorted(run),
        timestamp::ts_le(watermark, as_of),
    ensures
        ({
            let left = compaction::survivors(run, run.len() as int, watermark, is_last_level);
            &&& read(key::visible(left, key, as_of)) == read(key::visible(run, key, as_of))
            &&& !is_last_level ==> key::visible(left, key, as_of) == key::visible(run, key, as_of)
        }),
{
    lemma_survivors_first(run, run.len() as int, watermark, is_last_level, key, as_of);
    key::lemma_first_match(run, key, as_of);
    let f = key::first_match(run, key, as_of);
    if f < run.len() {
        lemma_first_match_unshadowed(run, watermark, key, as_of);
    }
}

/// The version that a read finds is not shadowed.
proof fn lemma_first_match_unshadowed(
    run: Seq<Version>,
    watermark: HlcTimestamp,
    key: Seq<u8>,
    as_of: HlcTimestamp,
)
    requires
        timestamp::ts_le(watermark, as_of),
        key::first_match(run, key, as_of) < run.len(),
    ensures
        !compaction::shadowed(run, key::first_match(run, key, as_of), watermark),
{
    key::lemma_first_match(run, key, as_of);
    let f = key::first_match(run, key, as_of);
    lemma_unshadowed(run, f, watermark, key, as_of);
}

proof fn lemma_unshadowed(
    run: Seq<Version>,
    i: int,
    watermark: HlcTimestamp,
    key: Seq<u8>,
    as_of: HlcTimestamp,
)
    requires
        timestamp::ts_le(watermark, as_of),
        0 <= i < run.len(),
        run[i].key.user == key,
        forall|j: int| 0 <= j < i ==> !key::matches_at(#[trigger] run[j], key, as_of),
    ensures
        !compaction::shadowed(run, i, watermark),
    decreases i,
{
    if i > 0 && run[i - 1].key.user == key {
        assert(!key::matches_at(run[i - 1], key, as_of));
        lemma_unshadowed(run, i - 1, watermark, key, as_of);
    }
}

proof fn lemma_survivors_first(
    run: Seq<Version>,
    n: int,
    watermark: HlcTimestamp,
    is_last_level: bool,
    key: Seq<u8>,
    as_of: HlcTimestamp,
)
    requires
        key::sorted(run),
        timestamp::ts_le(watermark, as_of),
        0 <= n <= run.len(),
    ensures
        ({
            let left = compaction::survivors(run, n, watermark, is_last_level);
            let f = key::first_match(run, key, as_of);
            key::visible(left, key, as_of) == (if f < n && compaction::kept(
                run,
                f,
                watermark,
                is_last_level,
            ) {
                Some(run[f].value)
            } else {
                None
            })
        }),
    decreases n,
{
    let left = compaction::survivors(run, n, watermark, is_last_level);
    let f = key::first_match(run, key, as_of);
    key::lemma_first_match(run, key, as_of);
    if n == 0 {
        key::lemma_first_match(left, key, as_of);
    } else {
        lemma_survivors_first(run, n - 1, watermark, is_last_level, key, as_of);
        let front = compaction::survivors(run, n - 1, watermark, is_last_level);
        let v = run[n - 1];
        if compaction::kept(run, n - 1, watermark, is_last_level) {
            assert(left =~= front + seq![v]);
            reader::lemma_visible_concat(front, seq![v], key, as_of);
            key::lemma_first_match(seq![v], key, as_of);
            if n - 1 < f {
                assert(!key::matches_at(run[n - 1], key, as_of));
            } else if n - 1 > f {
                if !compaction::kept(run, f, watermark, is_last_level) {
                    lemma_first_match_unshadowed(run, watermark, key, as_of);
                    if key::matches_at(v, key, as_of) {
                        lemma_behind_dropped(run, f, n - 1, watermark, key);
                        assert(!compaction::kept(run, n - 1, watermark, is_last_level));
                    }
                }
            }
        }
    }
}

/// Behind a version older than the watermark, all of the same user key are
/// older too, and shadowed by it.
proof fn lemma_behind_dropped(
    run: Seq<Version>,
    f: int,
    i: int,
    watermark: HlcTimestamp,
    key: Seq<u8>,
)
    requires
        key::sorted(run),
        0 <= f < i < run.len(),
        run[f].key.user == key,
        run[i].key.user == key,
        timestamp::ts_lt(run[f].key.ts, watermark),
    ensures
        timestamp::ts_lt(run[i].key.ts, watermark),
        compaction::shadowed(run, i, watermark),
{
    assert(!key::key_lt(run[i].key, run[f].key));
    let w = run[i - 1];
    if i - 1 > f {
        assert(!key::key_lt(w.key, run[f].key));
        assert(!key::key_lt(run[i].key, w.key));
        bytes::lemma_lex_total(w.key.user, key);
    }
    assert(w.key.user == key);
}

/// Cutting a run into tables loses nothing and keeps the order.
pub proof fn lemma_cut_joins(run: Seq<Version>, max_file_size: usize)
    ensures
        sstable::join(compaction::cut_of(run, max_file_size).all()) == run,
        sstable::join(compaction::cut_of(run, max_file_size).files) + compaction::cut_of(
            run,
            max_file_size,
        ).open == run,
    decreases run.len(),
{
    let c = compaction::cut_of(run, max_file_size);
    if run.len() == 0 {
        assert(sstable::join(c.files) + c.open =~= run);
    } else {
        let before = compaction::cut_of(run.drop_last(), max_file_size);
        lemma_cut_joins(run.drop_last(), max_file_size);
        let open = before.open.push(run.last());
        assert(sstable::join(before.files) + open =~= (sstable::join(before.files) + before.open).push(
            run.last(),
        ));
        assert(run =~= run.drop_last().push(run.last()));
        assert(before.files.push(open).drop_last() =~= before.files);
        assert(sstable::join(c.files) + c.open =~= run);
    }
    if c.open.len() > 0 {
        assert(c.files.push(c.open).drop_last() =~= c.files);
    }
    assert(sstable::join(c.all()) =~= run);
}

/// Compaction changes no read at or above the watermark: what the new tables
/// show is what the old ones did, where earlier tables held the newer versions.
pub proof fn lemma_compaction_keeps_reads(
    runs: Seq<Seq<Version>>,
    watermark: HlcTimestamp,
    is_last_level: bool,
    max_file_size: usize,
    key: Seq<u8>,
    as_of: HlcTimestamp,
)
    requires
        all_sorted(runs),
        newest_first(runs),
        timestamp::ts_le(watermark, as_of),
    ensures
        ({
            let out = sstable::join(
                compaction::compacted(runs, watermark, is_last_level, max_file_size),
            );
            &&& read(key::visible(out, key, as_of)) == read(first_visible(runs, key, as_of))
            &&& !is_last_level ==> key::visible(out, key, as_of) == first_visible(
                runs,
                key,
                as_of,
            )
        }),
{
    let m = compaction::merge(runs);
    lemma_merge_reads(runs, key, as_of);
    lemma_merge_sorted(runs);
    lemma_survivors_read(m, watermark, is_last_level, key, as_of);
    lemma_cut_joins(
        compaction::survivors(m, m.len() as int, watermark, is_last_level),
        max_file_size,
    );
}

/// A version that is older than the watermark and not the one that a read at
/// the watermark sees is gone after compaction.
pub proof fn lemma_compaction_drops_shadowed(
    run: Seq<Version>,
    n: int,
    watermark: HlcTimestamp,
    is_last_level: bool,
)
    requires
        0 <= n <= run.len(),
    ensures
        forall|v: Version|
            compaction::survivors(run, n, watermark, is_last_level).contains(v) ==> exists|i: int|
                0 <= i < n && #[trigger] run[i] == v && compaction::kept(
                    run,
                    i,
                    watermark,
                    is_last_level,
                ),
    decreases n,
{
    if n > 0 {
        lemma_compaction_drops_shadowed(run, n - 1, watermark, is_last_level);
        let front = compaction::survivors(run, n - 1, watermark, is_last_level);
        let left = compaction::survivors(run, n, watermark, is_last_level);
        assert forall|v: Version| left.contains(v) implies exists|i: int|
            0 <= i < n && #[trigger] run[i] == v && compaction::kept(
                run,
                i,
                watermark,
                is_last_level,
            ) by {
            let p = choose|p: int| 0 <= p < left.len() && left[p] == v;
            if p < front.len() {
                assert(front[p] == v);
                assert(front.contains(v));
                let i = choose|i: int|
                    0 <= i < n - 1 && #[trigger] run[i] == v && compaction::kept(
                        run,
                        i,
                        watermark,
                        is_last_level,
                    );
                assert(run[i] == v);
            } else {
                assert(run[n - 1] == v);
            }
        }
    }
}

// ----------------------------------------------------------------------
// What compaction clears away
// ----------------------------------------------------------------------
proof fn lemma_survivor_at(
    run: Seq<Version>,
    n: int,
    watermark: HlcTimestamp,
    is_last_level: bool,
    p: int,
) -> (i: int)
    requires
        0 <= n <= run.len(),
        0 <= p < compaction::survivors(run, n, watermark, is_last_level).len(),
    ensures
        0 <= i < n,
        run[i] == compaction::survivors(run, n, watermark, is_last_level)[p],
        compaction::kept(run, i, watermark, is_last_level),
    decreases n,
{
    let front = compaction::survivors(run, n - 1, watermark, is_last_level);
    if p < front.len() {
        lemma_survivor_at(run, n - 1, watermark, is_last_level, p)
    } else {
        n - 1
    }
}

proof fn lemma_survivors_at(
    run: Seq<Version>,
    n: int,
    watermark: HlcTimestamp,
    is_last_level: bool,
    p: int,
    q: int,
) -> (r: (int, int))
    requires
        0 <= n <= run.len(),
        0 <= p < q < compaction::survivors(run, n, watermark, is_last_level).len(),
    ensures
        0 <= r.0 < r.1 < n,
        run[r.0] == compaction::survivors(run, n, watermark, is_last_level)[p],
        run[r.1] == compaction::survivors(run, n, watermark, is_last_level)[q],
        compaction::kept(run, r.1, watermark, is_last_level),
    decreases n,
{
    let front = compaction::survivors(run, n - 1, watermark, is_last_level);
    if q < front.len() {
        lemma_survivors_at(run, n - 1, watermark, is_last_level, p, q)
    } else {
        (lemma_survivor_at(run, n - 1, watermark, is_last_level, p), n - 1)
    }
}

proof fn lemma_is_shadowed(run: Seq<Version>, i: int, j: int, watermark: HlcTimestamp)
    requires
        key::sorted(run),
        0 <= i < j < run.len(),
        run[i].key.user == run[j].key.user,
        timestamp::ts_le(run[i].key.ts, watermark),
    ensures
        compaction::shadowed(run, j, watermark),
    decreases j,
{
    let u = run[j].key.user;
    let w = run[j - 1].key.user;
    if i < j - 1 {
        assert(!key::key_lt(run[j - 1].key, run[i].key));
        assert(!key::key_lt(run[j].key, run[j - 1].key));
        bytes::lemma_lex_total(w, u);
        lemma_is_shadowed(run, i, j - 1, watermark);
    }
}

/// What compaction leaves of versions in order: where a version of a key that is not
/// later than the watermark is left, none of the same key is left behind it that is
/// earlier than the watermark; and on the last level no deletion is left from before
/// it. Every version that is not earlier than the watermark stays.
pub proof fn lemma_old_versions_are_cleared(
    run: Seq<Version>,
    watermark: HlcTimestamp,
    is_last_level: bool,
    p: int,
    q: int,
)
    requires
        key::sorted(run),
    ensures
        ({
            let left = compaction::survivors(run, run.len() as int, watermark, is_last_level);
            &&& 0 <= p < q < left.len() && left[p].key.user == left[q].key.user
                && is_at_or_before(left[p].key.ts, watermark) ==> is_at_or_before(
                watermark,
                left[q].key.ts,
            )
            &&& 0 <= p < left.len() && is_last_level && left[p].value is None ==> is_at_or_before(
                watermark,
                left[p].key.ts,
            )
            &&& 0 <= p < run.len() && is_at_or_before(watermark, run[p].key.ts) ==> left.contains(
                run[p],
            )
            &&& left.len() <= run.len()
        }),
{
    let n = run.len() as int;
    let left = compaction::survivors(run, n, watermark, is_last_level);
    if 0 <= p < q < left.len() && left[p].key.user == left[q].key.user && is_at_or_before(
        left[p].key.ts,
        watermark,
    ) {
        let (i, j) = lemma_survivors_at(run, n, watermark, is_last_level, p, q);
        lemma_is_shadowed(run, i, j, watermark);
    }
    if 0 <= p < left.len() && is_last_level && left[p].value is None {
        let i = lemma_survivor_at(run, n, watermark, is_last_level, p);
    }
    if 0 <= p < run.len() && is_at_or_before(watermark, run[p].key.ts) {
        lemma_recent_stays(run, n, watermark, is_last_level, p);
    }
    lemma_survivors_len(run, n, watermark, is_last_level);
}

/// The first time is the second or earlier.
pub open spec fn is_at_or_before(a: HlcTimestamp, b: HlcTimestamp) -> bool {
    a.physical < b.physical || (a.physical == b.physical && a.logical <= b.logical)
}

proof fn lemma_survivors_len(
    run: Seq<Version>,
    n: int,
    watermark: HlcTimestamp,
    is_last_level: bool,
)
    requires
        0 <= n <= run.len(),
    ensures
        compaction::survivors(run, n, watermark, is_last_level).len() <= n,
    decreases n,
{
    if n > 0 {
        lemma_survivors_len(run, n - 1, watermark, is_last_level);
    }
}

proof fn lemma_recent_stays(
    run: Seq<Version>,
    n: int,
    watermark: HlcTimestamp,
    is_last_level: bool,
    i: int,
)
    requires
        0 <= i < n <= run.len(),
        is_at_or_before(watermark, run[i].key.ts),
    ensures
        compaction::survivors(run, n, watermark, is_last_level).contains(run[i]),
    decreases n,
{
    let front = compaction::survivors(run, n - 1, watermark, is_last_level);
    let left = compaction::survivors(run, n, watermark, is_last_level);
    if i < n - 1 {
        lemma_recent_stays(run, n - 1, watermark, is_last_level, i);
        let k = choose|k: int| 0 <= k < front.len() && front[k] == run[i];
        assert(left[k] == run[i]);
    } else {
        assert(compaction::kept(run, i, watermark, is_last_level));
        assert(left[front.len() as int] == run[i]);
    }
}

/// A table is closed as soon as it has reached its size: without its last version each
/// is smaller, and each but the last of them has reached it.
pub proof fn lemma_tables_have_their_size(run: Seq<Version>, max_file_size: usize, i: int)
    requires
        max_file_size > 0,
    ensures
        ({
            let c = compaction::cut_of(run, max_file_size);
            &&& 0 <= i < c.files.len() ==> c.files[i].len() > 0 && block::block_bytes(
                c.files[i],
            ).len() >= max_file_size && block::block_bytes(c.files[i].drop_last()).len()
                < max_file_size
            &&& block::block_bytes(c.open).len() < max_file_size
            &&& 0 <= i < c.all().len() - 1 ==> block::block_bytes(c.all()[i]).len()
                >= max_file_size
        }),
    decreases run.len(),
{
    let c = compaction::cut_of(run, max_file_size);
    if run.len() > 0 {
        lemma_tables_have_their_size(run.drop_last(), max_file_size, i);
        let before = compaction::cut_of(run.drop_last(), max_file_size);
        let open = before.open.push(run.last());
        assert(open.drop_last() =~= before.open);
    }
}

/// A block of a table is closed as soon as it has four thousand and ninety-six bytes:
/// without its last version each is smaller, and each but the last has as many.
pub proof fn lemma_blocks_have_their_size(run: Seq<Version>, i: int)
    ensures
        ({
            let d = sstable::draft_of(run);
            &&& 0 <= i < d.blocks.len() ==> d.blocks[i].len() > 0 && block::block_bytes(
                d.blocks[i],
            ).len() >= 4096 && block::block_bytes(d.blocks[i].drop_last()).len() < 4096
            &&& block::block_bytes(d.open).len() < 4096
            &&& 0 <= i < sstable::blocks_of(run).len() - 1 ==> block::block_bytes(
                sstable::blocks_of(run)[i],
            ).len() >= 4096
        }),
    decreases run.len(),
{
    if run.len() > 0 {
        lemma_blocks_have_their_size(run.drop_last(), i);
        let before = sstable::draft_of(run.drop_last());
        let open = before.open.push(run.last());
        assert(open.drop_last() =~= before.open);
    }
}

} // verus!
