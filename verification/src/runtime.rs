//! A make-believe machine: a clock that only moves when it is told to, files that
//! are kept in memory, and a network that loses messages.
use crate::bytes::{append_bytes, bytes_eq, copy_bytes};
use crate::random;
use vstd::prelude::*;

verus! {

/// The machine. Times are in nanoseconds since it was started; what waits for a
/// time is known by a number.
pub struct SimState {
    pub clock: u64,
    pub timers: Vec<(u64, Vec<u64>)>,
    pub files: Vec<(Vec<u8>, Vec<u8>)>,
    pub drop_numerator: u32,
    pub drop_denominator: u32,
    pub rng: rand::rngs::StdRng,
}

/// The numbers that wait for a time, in the order in which they came.
pub open spec fn waiting(timers: Seq<(u64, Vec<u64>)>, time: u64) -> Seq<u64>
    decreases timers.len(),
{
    if timers.len() == 0 {
        Seq::empty()
    } else if timers.last().0 == time {
        timers.last().1@
    } else {
        waiting(timers.drop_last(), time)
    }
}

/// What is in a file, if it is there.
pub open spec fn content(files: Seq<(Vec<u8>, Vec<u8>)>, path: Seq<u8>) -> Option<Seq<u8>>
    decreases files.len(),
{
    if files.len() == 0 {
        None
    } else if files.last().0@ == path {
        Some(files.last().1@)
    } else {
        content(files.drop_last(), path)
    }
}

/// Some number waits for the time.
pub open spec fn awaited(timers: Seq<(u64, Vec<u64>)>, time: u64) -> bool {
    exists|i: int| 0 <= i < timers.len() && (#[trigger] timers[i]).0 == time
}

proof fn lemma_content(files: Seq<(Vec<u8>, Vec<u8>)>, i: int)
    requires
        0 <= i < files.len(),
        distinct_paths(files),
    ensures
        content(files, files[i].0@) == Some(files[i].1@),
    decreases files.len(),
{
    if i < files.len() - 1 {
        assert(files[i].0@ != files[files.len() - 1].0@);
        lemma_content(files.drop_last(), i);
        assert(files.drop_last()[i] == files[i]);
    }
}

proof fn lemma_no_content(files: Seq<(Vec<u8>, Vec<u8>)>, path: Seq<u8>)
    requires
        forall|i: int| 0 <= i < files.len() ==> (#[trigger] files[i]).0@ != path,
    ensures
        content(files, path) is None,
    decreases files.len(),
{
    if files.len() > 0 {
        assert(files[files.len() - 1].0@ != path);
        lemma_no_content(files.drop_last(), path);
    }
}

/// No file is there twice.
pub open spec fn distinct_paths(files: Seq<(Vec<u8>, Vec<u8>)>) -> bool {
    forall|i: int, j: int|
        0 <= i < j < files.len() ==> (#[trigger] files[i]).0@ != (#[trigger] files[j]).0@
}

/// Times are there once each, in order.
pub open spec fn times_ascend(timers: Seq<(u64, Vec<u64>)>) -> bool {
    forall|i: int, j: int|
        0 <= i < j < timers.len() ==> (#[trigger] timers[i]).0 < (#[trigger] timers[j]).0
}

proof fn lemma_waiting(timers: Seq<(u64, Vec<u64>)>, i: int)
    requires
        0 <= i < timers.len(),
        times_ascend(timers),
    ensures
        waiting(timers, timers[i].0) == timers[i].1@,
    decreases timers.len(),
{
    if i < timers.len() - 1 {
        assert(timers[i].0 < timers[timers.len() - 1].0);
        lemma_waiting(timers.drop_last(), i);
        assert(timers.drop_last()[i] == timers[i]);
    }
}

proof fn lemma_not_waiting(timers: Seq<(u64, Vec<u64>)>, time: u64)
    requires
        !awaited(timers, time),
    ensures
        waiting(timers, time).len() == 0,
    decreases timers.len(),
{
    if timers.len() > 0 {
        assert(timers[timers.len() - 1].0 != time);
        assert forall|i: int| 0 <= i < timers.len() - 1 implies (#[trigger] timers.drop_last()[i]).0
            != time by {
            assert(timers[i].0 != time);
        }
        lemma_not_waiting(timers.drop_last(), time);
    }
}

impl SimState {
    pub open spec fn wf(&self) -> bool {
        &&& distinct_paths(self.files@)
        &&& times_ascend(self.timers@)
        &&& self.drop_numerator <= self.drop_denominator
        &&& self.drop_denominator > 0
    }

    /// What is in a file, if it is there.
    pub open spec fn file(&self, path: Seq<u8>) -> Option<Seq<u8>> {
        content(self.files@, path)
    }

    /// The numbers that wait for a time.
    pub open spec fn waiters(&self, time: u64) -> Seq<u64> {
        waiting(self.timers@, time)
    }

    /// A machine that was just started, without files, that loses no messages.
    pub fn new(seed: u64) -> (r: Self)
        ensures
            r.wf(),
            r.clock == 0,
            r.drop_numerator == 0,
            r.drop_denominator == 1,
            forall|p: Seq<u8>| #[trigger] r.file(p) is None,
            forall|t: u64| (#[trigger] r.waiters(t)).len() == 0,
    {
        SimState {
            clock: 0,
            timers: Vec::new(),
            files: Vec::new(),
            drop_numerator: 0,
            drop_denominator: 1,
            rng: random::seeded(seed),
        }
    }

    /// When a sleep that begins now is over; nothing where that is past all times.
    pub fn deadline(&self, duration: u64) -> (r: Option<u64>)
        ensures
            r == if self.clock + duration <= u64::MAX {
                Some((self.clock + duration) as u64)
            } else {
                None
            },
    {
        self.clock.checked_add(duration)
    }

    /// Whether a time has come.
    pub fn has_come(&self, deadline: u64) -> (r: bool)
        ensures
            r == (self.clock >= deadline),
    {
        self.clock >= deadline
    }

    /// A number begins to wait for a time.
    pub fn register(&mut self, deadline: u64, ticket: u64)
        requires
            old(self).wf(),
        ensures
            final(self).wf(),
            final(self).clock == old(self).clock,
            final(self).files == old(self).files,
            final(self).drop_numerator == old(self).drop_numerator,
            final(self).drop_denominator == old(self).drop_denominator,
            final(self).waiters(deadline) == old(self).waiters(deadline).push(ticket),
            forall|t: u64| t != deadline ==> #[trigger] final(self).waiters(t) == old(self).waiters(t),
    {
        let ghost before = self.timers@;
        let n: usize = self.timers.len();
        let mut p: usize = n;
        while p > 0 && deadline < self.timers[p - 1].0
            invariant
                p <= n,
                n == self.timers@.len(),
                before == self.timers@,
                forall|k: int| p <= k < n ==> deadline < (#[trigger] before[k]).0,
            decreases p,
        {
            p = p - 1;
        }
        if p > 0 && self.timers[p - 1].0 == deadline {
            let (time, had) = self.timers.remove(p - 1);
            let mut all: Vec<u64> = had;
            all.push(ticket);
            self.timers.insert(p - 1, (time, all));
            proof {
                let now = self.timers@;
                assert(now =~= before.update(p - 1, now[p - 1]));
                lemma_waiting(before, p - 1);
                lemma_waiting(now, p - 1);
                assert forall|t: u64| t != deadline implies #[trigger] waiting(now, t) == waiting(
                    before,
                    t,
                ) by {
                    lemma_same(before, now, t);
                }
            }
        } else {
            let mut all: Vec<u64> = Vec::new();
            all.push(ticket);
            self.timers.insert(p, (deadline, all));
            proof {
                let now = self.timers@;
                assert(now =~= before.insert(p as int, now[p as int]));
                assert(times_ascend(now)) by {
                    assert forall|i: int, j: int| 0 <= i < j < now.len() implies (
                    #[trigger] now[i]).0 < (#[trigger] now[j]).0 by {
                        if i < p && j == p {
                            assert(before[i].0 <= before[p - 1].0);
                            assert(before[p - 1].0 < deadline);
                        } else if i < p && j > p {
                            assert(before[i].0 < before[j - 1].0);
                        } else if i == p {
                            assert(deadline < before[j - 1].0);
                        } else if i > p {
                            assert(before[i - 1].0 < before[j - 1].0);
                        }
                    }
                }
                assert(!awaited(before, deadline)) by {
                    if awaited(before, deadline) {
                        let i = choose|i: int|
                            0 <= i < before.len() && (#[trigger] before[i]).0 == deadline;
                        if i < p {
                            assert(before[i].0 <= before[p - 1].0);
                        }
                    }
                }
                lemma_not_waiting(before, deadline);
                lemma_waiting(now, p as int);
                assert(waiting(now, deadline) =~= waiting(before, deadline).push(ticket));
                assert forall|t: u64| t != deadline implies #[trigger] waiting(now, t) == waiting(
                    before,
                    t,
                ) by {
                    lemma_inserted(before, p as int, now[p as int], t);
                }
            }
        }
    }

    /// The clock moves to the next time for which something waits, and what waits
    /// for it is handed out.
    pub fn step(&mut self) -> (r: Vec<u64>)
        requires
            old(self).wf(),
        ensures
            final(self).wf(),
            final(self).files == old(self).files,
            final(self).drop_numerator == old(self).drop_numerator,
            final(self).drop_denominator == old(self).drop_denominator,
            old(self).timers@.len() == 0 ==> *final(self) == *old(self) && r@.len() == 0,
            old(self).timers@.len() > 0 ==> {
                &&& awaited(old(self).timers@, final(self).clock)
                &&& forall|t: u64| #[trigger]
                    awaited(old(self).timers@, t) ==> final(self).clock <= t
                &&& r@ == old(self).waiters(final(self).clock)
                &&& final(self).waiters(final(self).clock).len() == 0
                &&& forall|t: u64|
                    t != final(self).clock ==> #[trigger] final(self).waiters(t) == old(
                        self,
                    ).waiters(t)
            },
    {
        if self.timers.len() == 0 {
            return Vec::new();
        }
        let ghost before = self.timers@;
        let (time, all) = self.timers.remove(0);
        self.clock = time;
        proof {
            let now = self.timers@;
            assert(now =~= before.remove(0));
            assert(before =~= now.insert(0, before[0]));
            assert(before[0].0 == time);
            lemma_waiting(before, 0);
            assert forall|t: u64| #[trigger] awaited(before, t) implies time <= t by {
                let i = choose|i: int| 0 <= i < before.len() && (#[trigger] before[i]).0 == t;
                if i > 0 {
                    assert(before[0].0 < before[i].0);
                }
            }
            assert(times_ascend(now)) by {
                assert forall|i: int, j: int| 0 <= i < j < now.len() implies (#[trigger] now[i]).0
                    < (#[trigger] now[j]).0 by {
                    assert(before[i + 1].0 < before[j + 1].0);
                }
            }
            assert(!awaited(now, time)) by {
                if awaited(now, time) {
                    let i = choose|i: int| 0 <= i < now.len() && (#[trigger] now[i]).0 == time;
                    assert(before[0].0 < before[i + 1].0);
                }
            }
            lemma_not_waiting(now, time);
            assert forall|t: u64| t != time implies #[trigger] waiting(now, t) == waiting(
                before,
                t,
            ) by {
                lemma_inserted(now, 0, before[0], t);
            }
        }
        all
    }

    fn find(&self, path: &[u8]) -> (r: Option<usize>)
        ensures
            r matches Some(i) ==> i < self.files@.len() && self.files@[i as int].0@ == path@,
            r is None ==> forall|i: int|
                0 <= i < self.files@.len() ==> (#[trigger] self.files@[i]).0@ != path@,
    {
        let mut i: usize = 0;
        while i < self.files.len()
            invariant
                i <= self.files@.len(),
                forall|k: int| 0 <= k < i ==> (#[trigger] self.files@[k]).0@ != path@,
            decreases self.files@.len() - i,
        {
            if bytes_eq(self.files[i].0.as_slice(), path) {
                return Some(i);
            }
            i = i + 1;
        }
        None
    }

    /// What is in a file.
    pub fn read_file_sync(&self, path: &[u8]) -> (r: Result<Vec<u8>, String>)
        requires
            self.wf(),
        ensures
            match self.file(path@) {
                Some(b) => r matches Ok(v) && v@ == b,
                None => r matches Err(e) && e@ == "file not found"@,
            },
    {
        match self.find(path) {
            Some(i) => {
                proof {
                    lemma_content(self.files@, i as int);
                }
                Ok(copy_bytes(self.files[i].1.as_slice()))
            },
            None => {
                proof {
                    lemma_no_content(self.files@, path@);
                }
                Err("file not found".to_owned())
            },
        }
    }

    /// Sets what is in a file.
    pub fn write_file_sync(&mut self, path: &[u8], data: &[u8])
        requires
            old(self).wf(),
        ensures
            final(self).wf(),
            final(self).clock == old(self).clock,
            final(self).timers == old(self).timers,
            final(self).drop_numerator == old(self).drop_numerator,
            final(self).drop_denominator == old(self).drop_denominator,
            final(self).file(path@) == Some(data@),
            forall|p: Seq<u8>|
                p != path@ ==> #[trigger] final(self).file(p) == old(self).file(p),
    {
        let ghost before = self.files@;
        self.remove_file_sync(path);
        let ghost mid = self.files@;
        let ghost removed = *self;
        proof {
            assert forall|p: Seq<u8>| p != path@ implies #[trigger] content(mid, p) == content(
                before,
                p,
            ) by {
                assert(removed.file(p) == old(self).file(p));
            }
            assert forall|i: int| 0 <= i < mid.len() implies (#[trigger] mid[i]).0@ != path@ by {
                if mid[i].0@ == path@ {
                    lemma_content(mid, i);
                }
            }
        }
        self.files.push((copy_bytes(path), copy_bytes(data)));
        proof {
            let now = self.files@;
            assert(now.drop_last() =~= mid);
            assert(content(now, path@) == Some(data@));
            assert forall|p: Seq<u8>| p != path@ implies #[trigger] content(now, p) == content(
                before,
                p,
            ) by {
                assert(content(mid, p) == content(before, p));
            }
        }
    }

    /// Puts more at the end of a file, which is made if it is not there.
    pub fn append_file_sync(&mut self, path: &[u8], data: &[u8])
        requires
            old(self).wf(),
        ensures
            final(self).wf(),
            final(self).clock == old(self).clock,
            final(self).timers == old(self).timers,
            final(self).drop_numerator == old(self).drop_numerator,
            final(self).drop_denominator == old(self).drop_denominator,
            final(self).file(path@) == Some(
                match old(self).file(path@) {
                    Some(b) => b + data@,
                    None => data@,
                },
            ),
            forall|p: Seq<u8>|
                p != path@ ==> #[trigger] final(self).file(p) == old(self).file(p),
    {
        let mut all: Vec<u8> = match self.read_file_sync(path) {
            Ok(b) => b,
            Err(_) => Vec::new(),
        };
        append_bytes(&mut all, data);
        proof {
            if self.file(path@) is None {
                assert(all@ =~= data@);
            }
        }
        self.write_file_sync(path, all.as_slice());
    }

    /// Removes a file.
    pub fn remove_file_sync(&mut self, path: &[u8])
        requires
            old(self).wf(),
        ensures
            final(self).wf(),
            final(self).clock == old(self).clock,
            final(self).timers == old(self).timers,
            final(self).drop_numerator == old(self).drop_numerator,
            final(self).drop_denominator == old(self).drop_denominator,
            final(self).file(path@) is None,
            forall|p: Seq<u8>|
                p != path@ ==> #[trigger] final(self).file(p) == old(self).file(p),
    {
        let ghost before = self.files@;
        match self.find(path) {
            Some(i) => {
                self.files.remove(i);
                proof {
                    let now = self.files@;
                    assert(now =~= before.remove(i as int));
                    assert forall|a: int| 0 <= a < now.len() implies (#[trigger] now[a]).0@
                        != path@ by {
                        if a < i {
                            assert(before[a].0@ != before[i as int].0@);
                        } else {
                            assert(before[i as int].0@ != before[a + 1].0@);
                        }
                    }
                    assert(distinct_paths(now)) by {
                        assert forall|a: int, b: int| 0 <= a < b < now.len() implies (
                        #[trigger] now[a]).0@ != (#[trigger] now[b]).0@ by {
                            let x = if a < i {
                                a
                            } else {
                                a + 1
                            };
                            let y = if b < i {
                                b
                            } else {
                                b + 1
                            };
                            assert(before[x].0@ != before[y].0@);
                        }
                    }
                    lemma_no_content(now, path@);
                    assert forall|p: Seq<u8>| p != path@ implies #[trigger] content(now, p)
                        == content(before, p) by {
                        lemma_removed(before, i as int, p);
                    }
                }
            },
            None => {
                proof {
                    lemma_no_content(before, path@);
                }
            },
        }
    }

    /// So many of so many messages are lost.
    pub fn set_drop_rate(&mut self, numerator: u32, denominator: u32)
        requires
            old(self).wf(),
            numerator <= denominator,
            denominator > 0,
        ensures
            final(self).wf(),
            final(self).clock == old(self).clock,
            final(self).timers == old(self).timers,
            final(self).files == old(self).files,
            final(self).drop_numerator == numerator,
            final(self).drop_denominator == denominator,
    {
        self.drop_numerator = numerator;
        self.drop_denominator = denominator;
    }

    /// Whether the next message is lost: none is where none are to be, and all are
    /// where all are to be.
    pub fn loses_message(&mut self) -> (r: bool)
        requires
            old(self).wf(),
        ensures
            final(self).wf(),
            final(self).clock == old(self).clock,
            final(self).timers == old(self).timers,
            final(self).files == old(self).files,
            final(self).drop_numerator == old(self).drop_numerator,
            final(self).drop_denominator == old(self).drop_denominator,
            old(self).drop_numerator == 0 ==> !r,
            old(self).drop_numerator == old(self).drop_denominator ==> r,
    {
        random::draw_ratio(&mut self.rng, self.drop_numerator, self.drop_denominator)
    }
}

proof fn lemma_same(a: Seq<(u64, Vec<u64>)>, b: Seq<(u64, Vec<u64>)>, t: u64)
    requires
        a.len() == b.len(),
        forall|i: int| 0 <= i < a.len() ==> (#[trigger] a[i]).0 == b[i].0,
        forall|i: int| 0 <= i < a.len() && (#[trigger] a[i]).0 == t ==> a[i] == b[i],
    ensures
        waiting(a, t) == waiting(b, t),
    decreases a.len(),
{
    if a.len() > 0 {
        assert(a[a.len() - 1].0 == b[a.len() - 1].0);
        assert forall|i: int| 0 <= i < a.len() - 1 implies (#[trigger] a.drop_last()[i]).0
            == b.drop_last()[i].0 && (a.drop_last()[i].0 == t ==> a.drop_last()[i]
            == b.drop_last()[i]) by {
            assert(a[i].0 == b[i].0);
        }
        lemma_same(a.drop_last(), b.drop_last(), t);
    }
}

proof fn lemma_inserted(a: Seq<(u64, Vec<u64>)>, p: int, x: (u64, Vec<u64>), t: u64)
    requires
        0 <= p <= a.len(),
        x.0 != t,
    ensures
        waiting(a.insert(p, x), t) == waiting(a, t),
    decreases a.len(),
{
    let b = a.insert(p, x);
    if p == a.len() {
        assert(b.drop_last() =~= a);
    } else {
        assert(b.drop_last() =~= a.drop_last().insert(p, x));
        lemma_inserted(a.drop_last(), p, x, t);
    }
}

proof fn lemma_removed(a: Seq<(Vec<u8>, Vec<u8>)>, i: int, p: Seq<u8>)
    requires
        0 <= i < a.len(),
        a[i].0@ != p,
    ensures
        content(a.remove(i), p) == content(a, p),
    decreases a.len(),
{
    let b = a.remove(i);
    if i == a.len() - 1 {
        assert(b =~= a.drop_last());
    } else {
        assert(b.drop_last() =~= a.drop_last().remove(i));
        lemma_removed(a.drop_last(), i, p);
    }
}

} // verus!
