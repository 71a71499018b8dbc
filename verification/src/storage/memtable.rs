//! The table of recent writes, kept in memory.
use crate::bytes;
use crate::storage::key;
use crate::storage::key::{KeyView, MemKey, Version};
use crate::storage::skiplist::SkipList;
use crate::storage::timestamp::HlcTimestamp;
use vstd::prelude::*;

verus! {

/// The table of recent writes.
pub struct MemTable {
    inner: SkipList,
    size: usize,
}

impl View for MemTable {
    type V = Seq<Version>;

    /// The versions in key order.
    closed spec fn view(&self) -> Seq<Version> {
        self.inner@
    }
}

impl MemTable {
    pub closed spec fn wf(&self) -> bool {
        self.inner.wf()
    }

    /// The number of bytes written, counted modulo the range of `usize`.
    pub closed spec fn bytes_written(&self) -> usize {
        self.size
    }

    /// The versions are in key order.
    pub proof fn lemma_sorted(&self)
        requires
            self.wf(),
        ensures
            key::sorted(self@),
    {
        self.inner.lemma_sorted();
    }

    /// An empty table.
    pub fn new() -> (r: Self)
        ensures
            r.wf(),
            r@ == Seq::<Version>::empty(),
            r.bytes_written() == 0,
    {
        MemTable { inner: SkipList::new(), size: 0 }
    }

    /// How many versions there are.
    pub fn len(&self) -> (r: usize)
        requires
            self.wf(),
        ensures
            r == self@.len(),
    {
        self.inner.len()
    }

    /// Writes a version of a key.
    pub fn put(&mut self, key: Vec<u8>, value: Vec<u8>, ts: HlcTimestamp)
        requires
            old(self).wf(),
        ensures
            final(self).wf(),
            final(self)@ == with_write(old(self)@, key@, Some(value@), ts),
            final(self).bytes_written() == old(self).bytes_written().wrapping_add(
                key@.len() as usize,
            ).wrapping_add(value@.len() as usize),
    {
        let size: usize = self.size.wrapping_add(key.len()).wrapping_add(value.len());
        self.inner.insert(MemKey { user_key: key, ts }, Some(value));
        self.size = size;
    }

    /// Writes a deletion of a key.
    pub fn delete(&mut self, key: Vec<u8>, ts: HlcTimestamp)
        requires
            old(self).wf(),
        ensures
            final(self).wf(),
            final(self)@ == with_write(old(self)@, key@, None, ts),
            final(self).bytes_written() == old(self).bytes_written().wrapping_add(
                key@.len() as usize,
            ),
    {
        let size: usize = self.size.wrapping_add(key.len());
        self.inner.insert(MemKey { user_key: key, ts }, None);
        self.size = size;
    }

    /// The number of bytes written.
    pub fn size(&self) -> (r: usize)
        ensures
            r == self.bytes_written(),
    {
        self.size
    }

    /// What a read of `key` at `as_of` finds.
    pub fn get(&self, key: &[u8], as_of: HlcTimestamp) -> (r: Option<Option<Vec<u8>>>)
        requires
            self.wf(),
        ensures
            found_view(r) == key::visible(self@, key@, as_of),
    {
        let target = MemKey { user_key: bytes::copy_bytes(key), ts: as_of };
        proof {
            self.inner.lemma_sorted();
            key::lemma_visible_at_place(self@, key@, as_of);
            key::lemma_place(self@, target@);
            assert(target@ == KeyView { user: key@, ts: as_of });
        }
        match self.inner.find_greater_or_equal(&target) {
            Some(n) => {
                let (found, value) = self.inner.entry(n, Ghost(key::place(self@, target@)));
                if bytes::bytes_eq(found.user_key.as_slice(), key) {
                    Some(bytes::copy_value(value))
                } else {
                    None
                }
            },
            None => None,
        }
    }

    /// What a scan of the keys from `start` up to, not including, `end` shows
    /// at `as_of`; an empty `end` is no bound.
    pub fn scan(&self, start: &[u8], end: &[u8], as_of: HlcTimestamp) -> (r: Vec<
        (Vec<u8>, Option<Vec<u8>>),
    >)
        requires
            self.wf(),
        ensures
            key::hit_views(r@) == key::scanned(self@, start@, end@, as_of),
    {
        let ghost run = self@;
        let mut results: Vec<(Vec<u8>, Option<Vec<u8>>)> = Vec::new();
        let target = MemKey { user_key: bytes::copy_bytes(start), ts: as_of };
        let mut curr: Option<usize> = self.inner.find_greater_or_equal(&target);
        let mut last: Option<Vec<u8>> = None;
        let ghost mut p: int = key::place(run, target@);
        proof {
            self.inner.lemma_sorted();
            key::lemma_place(run, target@);
            assert forall|i: int| 0 <= i < p implies !#[trigger] key::shown(
                run,
                i,
                start@,
                end@,
                as_of,
            ) by {
                assert(key::key_lt(run[i].key, target@));
                bytes::lemma_lex_irreflexive(start@);
            }
            key::lemma_scan_skips(run, 0, p, start@, end@, as_of);
            key::lemma_place_rest(run, target@);
            assert forall|i: int| p <= i < run.len() implies !bytes::lex_lt(
                (#[trigger] run[i]).key.user,
                start@,
            ) by {
                assert(!key::key_lt(run[i].key, target@));
            }
            assert(key::hit_views(results@) =~= Seq::empty());
        }
        while curr.is_some()
            invariant_except_break
                curr matches Some(n) ==> p < run.len() && self.inner.order()[p] == n,
                curr is None ==> p == run.len(),
                key::hit_views(results@) == key::scan_first(run, p, start@, end@, as_of),
            invariant
                self.inner.wf(),
                run == self@,
                key::sorted(run),
                0 <= p <= run.len(),
                forall|i: int|
                    p <= i < run.len() ==> !bytes::lex_lt(
                        (#[trigger] run[i]).key.user,
                        start@,
                    ),
                key::scan_memory(run, p, bytes::value_view(last), start@, end@, as_of),
            ensures
                key::hit_views(results@) == key::scanned(run, start@, end@, as_of),
            decreases run.len() - p,
        {
            let n: usize = curr.unwrap();
            let (found, value) = self.inner.entry(n, Ghost(p));
            let user = found.user_key.as_slice();
            if end.len() > 0 && !bytes::bytes_lt(user, end) {
                proof {
                    assert forall|i: int| p <= i < run.len() implies !#[trigger] key::shown(
                        run,
                        i,
                        start@,
                        end@,
                        as_of,
                    ) by {
                        if p < i && bytes::lex_lt(run[i].key.user, end@) {
                            bytes::lemma_lex_total(run[p].key.user, run[i].key.user);
                            assert(!key::key_lt(run[i].key, run[p].key));
                            if run[p].key.user != run[i].key.user {
                                bytes::lemma_lex_transitive(
                                    run[p].key.user,
                                    run[i].key.user,
                                    end@,
                                );
                            }
                        }
                    }
                    key::lemma_scan_skips(run, p, run.len() as int, start@, end@, as_of);
                }
                break;
            }
            let seen: bool = match &last {
                Some(l) => bytes::bytes_eq(l.as_slice(), user),
                None => false,
            };
            proof {
                key::lemma_scan_memory(run, p, bytes::value_view(last), start@, end@, as_of);
            }
            if seen {
                assert(!key::shown(run, p, start@, end@, as_of));
                proof {
                    key::lemma_scan_memory_step(
                        run,
                        p,
                        p + 1,
                        bytes::value_view(last),
                        bytes::value_view(last),
                        start@,
                        end@,
                        as_of,
                    );
                }
                curr = self.inner.next_of(n, Ghost(p));
                proof {
                    p = p + 1;
                }
            } else if found.ts.is_at_or_before(&as_of) {
                assert(key::shown(run, p, start@, end@, as_of));
                let ghost before = key::hit_views(results@);
                let ghost old_last = bytes::value_view(last);
                let item = (bytes::copy_bytes(user), bytes::copy_value(value));
                let ghost hit = (item.0@, bytes::value_view(item.1));
                results.push(item);
                assert(key::hit_views(results@) =~= before.push(hit));
                last = Some(bytes::copy_bytes(user));
                proof {
                    key::lemma_scan_memory_step(
                        run,
                        p,
                        p + 1,
                        old_last,
                        bytes::value_view(last),
                        start@,
                        end@,
                        as_of,
                    );
                }
                curr = self.inner.next_of(n, Ghost(p));
                proof {
                    p = p + 1;
                }
            } else {
                let seek = MemKey { user_key: bytes::copy_bytes(user), ts: as_of };
                curr = self.inner.find_greater_or_equal(&seek);
                proof {
                    let q = key::place(run, seek@);
                    key::lemma_place(run, seek@);
                    key::lemma_place_rest(run, seek@);
                    assert(key::key_lt(run[p].key, seek@));
                    assert(p < q) by {
                        if q <= p {
                            assert(!key::key_lt(run[p].key, seek@));
                        }
                    }
                    assert forall|i: int| p <= i < q implies !#[trigger] key::matches_at(
                        run[i],
                        run[i].key.user,
                        as_of,
                    ) by {
                        assert(key::key_lt(run[i].key, seek@));
                        if p < i {
                            assert(!key::key_lt(run[i].key, run[p].key));
                        }
                        bytes::lemma_lex_irreflexive(user@);
                        bytes::lemma_lex_total(run[i].key.user, user@);
                    }
                    assert forall|i: int| p <= i < q implies !#[trigger] key::shown(
                        run,
                        i,
                        start@,
                        end@,
                        as_of,
                    ) by {
                        assert(!key::matches_at(run[i], run[i].key.user, as_of));
                    }
                    key::lemma_scan_skips(run, p, q, start@, end@, as_of);
                    key::lemma_scan_memory_step(
                        run,
                        p,
                        q,
                        bytes::value_view(last),
                        bytes::value_view(last),
                        start@,
                        end@,
                        as_of,
                    );
                    p = q;
                }
            }
        }
        results
    }

    /// All versions in key order.
    pub fn iter_all(&self) -> (r: Vec<(MemKey, Option<Vec<u8>>)>)
        requires
            self.wf(),
        ensures
            key::version_views(r@) == self@,
    {
        self.inner.iter_all()
    }

    /// Forgets everything.
    pub fn clear(&mut self)
        ensures
            final(self).wf(),
            final(self)@ == Seq::<Version>::empty(),
            final(self).bytes_written() == 0,
    {
        self.inner = SkipList::new();
        self.size = 0;
    }
}

/// A run with one more version of a key, in front of those of the same time.
pub open spec fn with_write(
    run: Seq<Version>,
    key: Seq<u8>,
    value: Option<Seq<u8>>,
    ts: HlcTimestamp,
) -> Seq<Version> {
    let k = KeyView { user: key, ts };
    run.insert(key::place(run, k), Version { key: k, value })
}

/// What a read found, as a mathematical value.
pub open spec fn found_view(r: Option<Option<Vec<u8>>>) -> Option<Option<Seq<u8>>> {
    match r {
        Some(v) => Some(bytes::value_view(v)),
        None => None,
    }
}

} // verus!
