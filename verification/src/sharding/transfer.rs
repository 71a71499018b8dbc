//! What becomes of keys when their shard is split or merged.
use crate::bytes;
use crate::sharding::commands::CommandView;
use crate::sharding::lists;
use crate::sharding::machine;
use crate::sharding::machine::ExportView;
use crate::sharding::routing::ShardId;
use crate::storage::compaction_laws;
use crate::storage::key;
use crate::storage::key::KeyView;
use crate::storage::lsm_laws;
use crate::storage::lsm_model;
use crate::storage::lsm_model::LsmView;
use crate::storage::reader;
use crate::storage::scan;
use crate::storage::timestamp;
use crate::storage::timestamp::HlcTimestamp;
use vstd::prelude::*;

verus! {

/// The recent writes are in order, and every table agrees with its versions and does
/// not hold a version of the key at the end of time twice.
pub open spec fn is_clear(s: LsmView, key: Seq<u8>) -> bool {
    &&& key::sorted(s.active)
    &&& forall|i: int|
        0 <= i < s.levels.len() ==> lsm_laws::clear(#[trigger] s.levels[i], key, machine::max_ts())
}

/// The lengths can be written down.
pub open spec fn can_be_sent(ps: Seq<(Seq<u8>, Seq<u8>)>) -> bool {
    &&& ps.len() <= u64::MAX
    &&& forall|i: int|
        0 <= i < ps.len() ==> (#[trigger] ps[i]).0.len() <= u64::MAX && ps[i].1.len() <= u64::MAX
}

/// What the shard has from a key on can be sent.
pub open spec fn can_send(s: LsmView, start: Seq<u8>) -> bool {
    forall|hits: Seq<(Seq<u8>, Seq<u8>)>| #[trigger]
        scan::is_scan(hits, s.runs(), start, Seq::empty(), machine::max_ts()) ==> can_be_sent(hits)
}

/// The time of the keys and values that come with a shard.
pub open spec fn arrival() -> HlcTimestamp {
    HlcTimestamp { physical: 0, logical: 0 }
}

/// The engine of a shard has gone from `s` to `t` by taking in what was sent to it.
pub open spec fn takes_in<F: Fn(usize) -> (usize, usize)>(
    f: F,
    s: LsmView,
    split: Option<Seq<u8>>,
    merge: Option<Seq<u8>>,
    t: LsmView,
) -> bool {
    lsm_model::after_writes(f, s, machine::initial_puts(machine::seed_pairs(split, merge)), t)
}

/// A scan shows a key with the value that a read gives.
proof fn lemma_scan_shows(
    s: LsmView,
    hits: Seq<(Seq<u8>, Seq<u8>)>,
    start: Seq<u8>,
    key: Seq<u8>,
) -> (at: int)
    requires
        is_clear(s, key),
        scan::is_scan(hits, s.runs(), start, Seq::empty(), machine::max_ts()),
    ensures
        forall|i: int, j: int|
            0 <= i < j < hits.len() ==> (#[trigger] hits[i]).0 != (#[trigger] hits[j]).0,
        !bytes::lex_lt(key, start) && s.get(key, machine::max_ts()) is Some ==> 0 <= at
            < hits.len() && hits[at] == (key, s.get(key, machine::max_ts())->0),
        bytes::lex_lt(key, start) || s.get(key, machine::max_ts()) is None ==> forall|i: int|
            0 <= i < hits.len() ==> (#[trigger] hits[i]).0 != key,
{
    let latest = machine::max_ts();
    lsm_laws::lemma_get_reads_runs(s, key, latest);
    assert forall|i: int, j: int| 0 <= i < j < hits.len() implies (#[trigger] hits[i]).0 != (
    #[trigger] hits[j]).0 by {
        assert(bytes::lex_lt(hits[i].0, hits[j].0));
        bytes::lemma_lex_irreflexive(hits[i].0);
    }
    assert forall|i: int|
        0 <= i < hits.len() && (#[trigger] hits[i]).0 == key implies !bytes::lex_lt(key, start)
        && s.get(key, latest) is Some by {
        let v = hits[i].1;
        assert(hits[i] == (key, v));
        assert(hits.contains((key, v)));
    }
    if !bytes::lex_lt(key, start) && s.get(key, latest) is Some {
        let v = s.get(key, latest)->0;
        assert(compaction_laws::first_visible(s.runs(), key, latest) == Some(Some(v)));
        assert(hits.contains((key, v)));
        choose|i: int| 0 <= i < hits.len() && hits[i] == (key, v)
    } else {
        0
    }
}

/// Keys and values that arrive are read; the other keys read as they did.
proof fn lemma_arrivals_are_read<F: Fn(usize) -> (usize, usize)>(
    f: F,
    s: LsmView,
    ps: Seq<(Seq<u8>, Seq<u8>)>,
    t: LsmView,
    key: Seq<u8>,
)
    requires
        lsm_model::after_writes(f, s, machine::initial_puts(ps), t),
        key::sorted(s.active),
        s.levels.len() > 0,
        reader::once(s.active, (KeyView { user: key, ts: machine::max_ts() })),
        forall|i: int|
            0 <= i < ps.len() ==> lsm_laws::none_later(s, (#[trigger] ps[i]).0, arrival()),
        keys_differ(ps),
    ensures
        forall|i: int|
            0 <= i < ps.len() && (#[trigger] ps[i]).0 == key ==> t.get(key, machine::max_ts())
                == Some(ps[i].1),
        (forall|i: int| 0 <= i < ps.len() ==> (#[trigger] ps[i]).0 != key) ==> t.get(
            key,
            machine::max_ts(),
        ) == s.get(key, machine::max_ts()),
{
    let rs = machine::initial_puts(ps);
    let latest = machine::max_ts();
    assert forall|i: int| 0 <= i < rs.len() implies lsm_laws::none_later(
        s,
        (#[trigger] rs[i]).key,
        rs[i].ts,
    ) && rs[i].ts != latest by {
        assert(rs[i] == machine::put_of(ps[i].0, ps[i].1, arrival()));
    }
    assert forall|i: int, j: int| 0 <= i < j < rs.len() implies (#[trigger] rs[i]).key != (
    #[trigger] rs[j]).key by {
        assert(rs[i].key == ps[i].0 && rs[j].key == ps[j].0);
    }
    assert(lsm_laws::told_apart(s, rs, key, latest));
    lsm_laws::lemma_after_writes_are_read(f, s, rs, t, key, latest);
    assert forall|i: int| 0 <= i < ps.len() && (#[trigger] ps[i]).0 == key implies t.get(key, latest)
        == Some(ps[i].1) by {
        assert(lsm_laws::reaches(rs[i], key, latest) && !rs[i].is_delete);
    }
    if forall|i: int| 0 <= i < ps.len() ==> (#[trigger] ps[i]).0 != key {
        assert forall|i: int| 0 <= i < rs.len() implies !lsm_laws::reaches(
            #[trigger] rs[i],
            key,
            latest,
        ) by {
            assert(rs[i].key == ps[i].0);
        }
    }
}

/// The data that a command sends to another shard.
pub open spec fn data_of(out: Seq<ExportView>) -> Seq<u8> {
    match out[0] {
        ExportView::Split { data, .. } => data,
        ExportView::Merge { data, .. } => data,
    }
}

/// A split loses no key: those before the split key stay where they were, and a new
/// shard, on an engine that has nothing yet, reads all others as the old shard did,
/// which has them no more.
pub proof fn lemma_split_keeps_keys<
    F: Fn(usize) -> (usize, usize),
    G: Fn(usize) -> (usize, usize),
>(
    f: F,
    s: LsmView,
    new_shard_id: ShardId,
    split_key: Seq<u8>,
    old_shard: LsmView,
    out: Seq<ExportView>,
    g: G,
    fresh: LsmView,
    new_shard: LsmView,
    key: Seq<u8>,
)
    requires
        machine::executed(
            f,
            s,
            (CommandView::Split { new_shard_id, split_key }),
            old_shard,
            out,
        ),
        is_clear(s, key),
        s.levels.len() > 0,
        can_send(s, split_key),
        takes_in(g, fresh, Some(data_of(out)), None, new_shard),
        fresh.active.len() == 0,
        fresh.levels.len() > 0,
        fresh.get(key, machine::max_ts()) is None,
    ensures
        ({
            let before = s.get(key, machine::max_ts());
            if bytes::lex_lt(key, split_key) {
                &&& old_shard.get(key, machine::max_ts()) == before
                &&& new_shard.get(key, machine::max_ts()) is None
            } else {
                &&& old_shard.get(key, machine::max_ts()) is None
                &&& new_shard.get(key, machine::max_ts()) == before
            }
        }),
{
    let latest = machine::max_ts();
    let hits = choose|hits: Seq<(Seq<u8>, Seq<u8>)>|
        #![trigger machine::deletions(hits)]
        scan::is_scan(hits, s.runs(), split_key, Seq::empty(), latest) && lsm_model::after_writes(
            f,
            s,
            machine::deletions(hits),
            old_shard,
        ) && out == seq![ExportView::Split { to: new_shard_id, data: lists::enc_pairs(hits) }];
    let at = lemma_scan_shows(s, hits, split_key, key);
    let rs = machine::deletions(hits);
    assert forall|i: int| 0 <= i < rs.len() implies (#[trigger] rs[i]).is_delete
        && lsm_laws::none_later(s, rs[i].key, rs[i].ts) by {
        assert(rs[i] == machine::delete_of(hits[i].0, latest));
    }
    assert forall|i: int, j: int| 0 <= i < j < rs.len() implies (#[trigger] rs[i]).key != (
    #[trigger] rs[j]).key by {
        assert(rs[i].key == hits[i].0 && rs[j].key == hits[j].0);
    }
    lsm_laws::lemma_deletions_are_read(f, s, rs, old_shard, key, latest);
    lists::lemma_pairs_round_trip(hits);
    assert(machine::seed_pairs(Some(lists::enc_pairs(hits)), None) =~= hits);
    lemma_arrivals_are_read(g, fresh, hits, new_shard, key);
    if !bytes::lex_lt(key, split_key) && s.get(key, latest) is Some {
        assert(lsm_laws::reaches(rs[at], key, latest));
    } else {
        assert forall|i: int| 0 <= i < rs.len() implies !lsm_laws::reaches(
            #[trigger] rs[i],
            key,
            latest,
        ) by {
            assert(rs[i].key == hits[i].0);
        }
    }
}

/// A donor lands behind what waits.
proof fn lemma_lands(
    waiting: Option<Seq<u8>>,
    to: ShardId,
    hits: Seq<(Seq<u8>, Seq<u8>)>,
)
    requires
        can_be_sent(hits),
        can_be_sent(machine::waiting_pairs(waiting) + hits),
    ensures
        machine::waiting_pairs(
            Some(
                machine::landed(waiting, (ExportView::Merge { to, data: lists::enc_pairs(hits) })),
            ),
        ) == machine::waiting_pairs(waiting) + hits,
{
    lists::lemma_pairs_round_trip(hits);
    lists::lemma_pairs_round_trip(machine::waiting_pairs(waiting) + hits);
}

/// What a shard hands out when it is merged into another one.
proof fn lemma_merge_out<F: Fn(usize) -> (usize, usize)>(
    f: F,
    s: LsmView,
    to: ShardId,
    t: LsmView,
    out: Seq<ExportView>,
) -> (hits: Seq<(Seq<u8>, Seq<u8>)>)
    requires
        machine::executed(f, s, (CommandView::Merge { target_shard_id: to }), t, out),
        can_send(s, Seq::empty()),
    ensures
        scan::is_scan(hits, s.runs(), Seq::empty(), Seq::empty(), machine::max_ts()),
        can_be_sent(hits),
        out == seq![ExportView::Merge { to, data: lists::enc_pairs(hits) }],
        machine::waiting_pairs(Some(data_of(out))) == hits,
{
    let hits = choose|hits: Seq<(Seq<u8>, Seq<u8>)>|
        #![trigger lists::enc_pairs(hits)]
        scan::is_scan(hits, s.runs(), Seq::empty(), Seq::empty(), machine::max_ts()) && out == seq![
            ExportView::Merge { to, data: lists::enc_pairs(hits) },
        ];
    lists::lemma_pairs_round_trip(hits);
    hits
}

/// Of two shards that are merged, one after the other, into a third, both wait for
/// it: what waits then holds whatever waited before, and every key of either donor
/// with the value that a read of that donor gave.
pub proof fn lemma_donors_wait_together<
    F: Fn(usize) -> (usize, usize),
    G: Fn(usize) -> (usize, usize),
>(
    f: F,
    first: LsmView,
    first_after: LsmView,
    first_out: Seq<ExportView>,
    g: G,
    second: LsmView,
    second_after: LsmView,
    second_out: Seq<ExportView>,
    to: ShardId,
    waiting: Option<Seq<u8>>,
    key: Seq<u8>,
    value: Seq<u8>,
)
    requires
        machine::executed(
            f,
            first,
            (CommandView::Merge { target_shard_id: to }),
            first_after,
            first_out,
        ),
        machine::executed(
            g,
            second,
            (CommandView::Merge { target_shard_id: to }),
            second_after,
            second_out,
        ),
        is_clear(first, key),
        is_clear(second, key),
        can_send(first, Seq::empty()),
        can_send(second, Seq::empty()),
        can_be_sent(machine::waiting_pairs(waiting)),
        machine::waiting_pairs(waiting).len() + machine::waiting_pairs(
            Some(data_of(first_out)),
        ).len() + machine::waiting_pairs(Some(data_of(second_out))).len() <= u64::MAX,
    ensures
        ({
            let one = machine::landed(waiting, first_out[0]);
            let both = machine::waiting_pairs(Some(machine::landed(Some(one), second_out[0])));
            &&& machine::waiting_pairs(waiting).contains((key, value)) ==> both.contains(
                (key, value),
            )
            &&& first.get(key, machine::max_ts()) == Some(value) ==> both.contains((key, value))
            &&& second.get(key, machine::max_ts()) == Some(value) ==> both.contains((key, value))
        }),
{
    let a = lemma_merge_out(f, first, to, first_after, first_out);
    let b = lemma_merge_out(g, second, to, second_after, second_out);
    let before = machine::waiting_pairs(waiting);
    lemma_lands(waiting, to, a);
    let one = machine::landed(waiting, first_out[0]);
    lemma_lands(Some(one), to, b);
    let both = before + a + b;
    let p = lemma_scan_shows(first, a, Seq::empty(), key);
    let q = lemma_scan_shows(second, b, Seq::empty(), key);
    assert(!bytes::lex_lt(key, Seq::empty()));
    if before.contains((key, value)) {
        let i = choose|i: int| 0 <= i < before.len() && before[i] == (key, value);
        assert(both[i] == (key, value));
    }
    if first.get(key, machine::max_ts()) == Some(value) {
        assert(both[before.len() + p] == (key, value));
    }
    if second.get(key, machine::max_ts()) == Some(value) {
        assert(both[before.len() + a.len() + q] == (key, value));
    }
}

/// The keys of the pairs differ.
pub open spec fn keys_differ(ps: Seq<(Seq<u8>, Seq<u8>)>) -> bool {
    forall|i: int, j: int|
        0 <= i < j < ps.len() ==> (#[trigger] ps[i]).0 != (#[trigger] ps[j]).0
}

/// A merge loses no key: a shard that takes in what waits for it reads the keys of
/// the last donor as that one did, the other keys that waited as they came, and all
/// others as before. The donors have no key in common, and recent writes of these
/// keys that the shard has itself, if there are any, came with a shard too.
pub proof fn lemma_merge_keeps_keys<
    F: Fn(usize) -> (usize, usize),
    G: Fn(usize) -> (usize, usize),
>(
    f: F,
    s: LsmView,
    to: ShardId,
    after: LsmView,
    out: Seq<ExportView>,
    g: G,
    target: LsmView,
    split: Option<Seq<u8>>,
    waiting: Option<Seq<u8>>,
    merged: LsmView,
    key: Seq<u8>,
)
    requires
        machine::executed(f, s, (CommandView::Merge { target_shard_id: to }), after, out),
        is_clear(s, key),
        can_send(s, Seq::empty()),
        can_be_sent(machine::waiting_pairs(waiting) + machine::waiting_pairs(Some(data_of(out)))),
        keys_differ(
            machine::seed_pairs(split, waiting) + machine::waiting_pairs(Some(data_of(out))),
        ),
        takes_in(g, target, split, Some(machine::landed(waiting, out[0])), merged),
        key::sorted(target.active),
        target.levels.len() > 0,
        reader::once(target.active, (KeyView { user: key, ts: machine::max_ts() })),
        ({
            let all = machine::seed_pairs(split, waiting) + machine::waiting_pairs(
                Some(data_of(out)),
            );
            forall|i: int|
                0 <= i < all.len() ==> lsm_laws::none_later(
                    target,
                    (#[trigger] all[i]).0,
                    arrival(),
                )
        }),
    ensures
        ({
            let came = machine::seed_pairs(split, waiting);
            let now = merged.get(key, machine::max_ts());
            match s.get(key, machine::max_ts()) {
                Some(v) => now == Some(v),
                None => {
                    &&& forall|i: int|
                        0 <= i < came.len() && (#[trigger] came[i]).0 == key ==> now == Some(
                            came[i].1,
                        )
                    &&& (forall|i: int| 0 <= i < came.len() ==> (#[trigger] came[i]).0 != key)
                        ==> now == target.get(key, machine::max_ts())
                },
            }
        }),
{
    let hits = lemma_merge_out(f, s, to, after, out);
    let at = lemma_scan_shows(s, hits, Seq::empty(), key);
    lemma_lands(waiting, to, hits);
    assert(!bytes::lex_lt(key, Seq::empty()));
    let came = machine::seed_pairs(split, waiting);
    let all = came + hits;
    assert(machine::seed_pairs(split, Some(machine::landed(waiting, out[0]))) =~= all);
    lemma_arrivals_are_read(g, target, all, merged, key);
    if s.get(key, machine::max_ts()) is Some {
        assert(all[came.len() + at] == hits[at]);
    } else {
        assert forall|i: int| 0 <= i < came.len() && (#[trigger] came[i]).0 == key implies all[i].0
            == key by {
            assert(all[i] == came[i]);
        }
        if forall|i: int| 0 <= i < came.len() ==> (#[trigger] came[i]).0 != key {
            assert forall|i: int| 0 <= i < all.len() implies (#[trigger] all[i]).0 != key by {
                if i < came.len() {
                    assert(all[i] == came[i]);
                } else {
                    assert(all[i] == hits[i - came.len()]);
                }
            }
        }
    }
}

/// A shard that is restored from a snapshot, on an engine that has nothing yet, reads
/// every key as the shard did that the snapshot was taken of.
pub proof fn lemma_snapshot_keeps_keys<G: Fn(usize) -> (usize, usize)>(
    s: LsmView,
    snapshot: Seq<u8>,
    g: G,
    fresh: LsmView,
    pairs: Seq<(Seq<u8>, Seq<u8>)>,
    t: LsmView,
    key: Seq<u8>,
)
    requires
        machine::is_dump(snapshot, s),
        is_clear(s, key),
        can_send(s, Seq::empty()),
        lists::dec_pairs(snapshot) == Some(pairs),
        lsm_model::after_writes(g, fresh, machine::initial_puts(pairs), t),
        fresh.active.len() == 0,
        fresh.levels.len() > 0,
        fresh.get(key, machine::max_ts()) is None,
    ensures
        t.get(key, machine::max_ts()) == s.get(key, machine::max_ts()),
{
    let latest = machine::max_ts();
    let none = Seq::<u8>::empty();
    let hits = choose|hits: Seq<(Seq<u8>, Seq<u8>)>|
        #![trigger lists::enc_pairs(hits)]
        scan::is_scan(hits, s.runs(), none, none, latest) && snapshot == lists::enc_pairs(hits);
    assert(can_be_sent(hits));
    lists::lemma_pairs_round_trip(hits);
    assert(pairs == hits);
    let at = lemma_scan_shows(s, hits, none, key);
    lemma_arrivals_are_read(g, fresh, hits, t, key);
    assert(!bytes::lex_lt(key, none));
    if s.get(key, latest) is Some {
        assert(hits[at].0 == key);
    }
}

} // verus!
