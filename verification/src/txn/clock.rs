//! Hybrid logical clocks.
use crate::storage::timestamp;
use crate::storage::timestamp::HlcTimestamp;
use vstd::prelude::*;

verus! {

/// A time of the system's clock, of which nothing inside is known.
#[verifier::external_type_specification]
#[verifier::external_body]
pub struct ExSystemTime(std::time::SystemTime);

/// `std::time::SystemTime::now`. Nothing is claimed of the time.
#[verifier::external_body]
fn system_now() -> std::time::SystemTime {
    std::time::SystemTime::now()
}

/// `std::time::SystemTime::duration_since` the start of 1970, or nothing for a time
/// before that. Nothing is claimed of the duration.
#[verifier::external_body]
fn since_epoch(t: std::time::SystemTime) -> Option<std::time::Duration> {
    t.duration_since(std::time::UNIX_EPOCH).ok()
}

/// `std::time::Duration::as_millis`. Nothing is claimed of the number.
#[verifier::external_body]
fn whole_millis(d: std::time::Duration) -> u128 {
    d.as_millis()
}

/// Milliseconds since the start of 1970; a clock that stands before that reads as
/// zero.
fn system_millis() -> u64 {
    match since_epoch(system_now()) {
        Some(d) => {
            #[verifier::truncate]
            let millis: u64 = whole_millis(d) as u64;
            millis
        },
        None => 0,
    }
}

/// The counter and the clock behind a local event, where the counter may run
/// over.
pub open spec fn local_next(state: HlcTimestamp, now: u64) -> (u64, int) {
    if now > state.physical {
        (now, 0)
    } else {
        (state.physical, state.logical + 1)
    }
}

/// The greatest of three.
pub open spec fn greatest(a: u64, b: u64, c: u64) -> u64 {
    let m = if a < b {
        b
    } else {
        a
    };
    if m < c {
        c
    } else {
        m
    }
}

/// The counter and the clock behind a message, where the counter may run over.
pub open spec fn receive_next(state: HlcTimestamp, msg: HlcTimestamp, now: u64) -> (u64, int) {
    let p = greatest(state.physical, msg.physical, now);
    let l = if p == state.physical && p == msg.physical {
        if state.logical < msg.logical {
            msg.logical + 1
        } else {
            state.logical + 1
        }
    } else if p == state.physical {
        state.logical + 1
    } else if p == msg.physical {
        msg.logical + 1
    } else {
        0
    };
    (p, l)
}

/// The timestamp with that clock and counter.
pub open spec fn stamp(next: (u64, int)) -> HlcTimestamp {
    HlcTimestamp { physical: next.0, logical: next.1 as u32 }
}

/// The timestamp of a local event when the physical clock shows `now`.
pub fn next_local(state: HlcTimestamp, now: u64) -> (r: HlcTimestamp)
    requires
        local_next(state, now).1 <= u32::MAX,
    ensures
        r == stamp(local_next(state, now)),
{
    if now > state.physical {
        HlcTimestamp { physical: now, logical: 0 }
    } else {
        HlcTimestamp { physical: state.physical, logical: state.logical + 1 }
    }
}

/// The timestamp of the receipt of a message when the physical clock shows
/// `now`.
pub fn next_receive(state: HlcTimestamp, msg: HlcTimestamp, now: u64) -> (r: HlcTimestamp)
    requires
        receive_next(state, msg, now).1 <= u32::MAX,
    ensures
        r == stamp(receive_next(state, msg, now)),
{
    let m: u64 = if state.physical < msg.physical {
        msg.physical
    } else {
        state.physical
    };
    let p: u64 = if m < now {
        now
    } else {
        m
    };
    let logical: u32 = if p == state.physical && p == msg.physical {
        if state.logical < msg.logical {
            msg.logical + 1
        } else {
            state.logical + 1
        }
    } else if p == state.physical {
        state.logical + 1
    } else if p == msg.physical {
        msg.logical + 1
    } else {
        0
    };
    HlcTimestamp { physical: p, logical }
}

/// A local event comes behind all that its clock has seen, and is not behind
/// the physical clock.
pub proof fn lemma_local_event_is_later(state: HlcTimestamp, now: u64)
    requires
        local_next(state, now).1 <= u32::MAX,
    ensures
        timestamp::ts_lt(state, stamp(local_next(state, now))),
        stamp(local_next(state, now)).physical >= now,
{
}

/// The receipt of a message comes behind the message and behind all that its
/// clock has seen.
pub proof fn lemma_receipt_is_later(state: HlcTimestamp, msg: HlcTimestamp, now: u64)
    requires
        receive_next(state, msg, now).1 <= u32::MAX,
    ensures
        timestamp::ts_lt(state, stamp(receive_next(state, msg, now))),
        timestamp::ts_lt(msg, stamp(receive_next(state, msg, now))),
        stamp(receive_next(state, msg, now)).physical >= now,
{
}

/// A clock never runs ahead of the physical clocks that it has seen: what it shows was
/// shown by its own physical clock, or was seen before; and it counts only where its
/// physical clock has not gone on.
pub proof fn lemma_clock_does_not_run_ahead(state: HlcTimestamp, msg: HlcTimestamp, now: u64)
    ensures
        ({
            let a = local_next(state, now);
            &&& a.0 == now || a.0 == state.physical
            &&& now > state.physical ==> a.1 == 0
            &&& now <= state.physical ==> a.1 == state.logical + 1
        }),
        ({
            let b = receive_next(state, msg, now);
            &&& b.0 == now || b.0 == state.physical || b.0 == msg.physical
            &&& now > state.physical && now > msg.physical ==> b.1 == 0
            &&& b.1 <= 1 + state.logical || b.1 <= 1 + msg.logical
            &&& b.0 > state.physical && b.0 > msg.physical ==> b.1 == 0
            &&& b.0 > state.physical && b.0 == msg.physical ==> b.1 == msg.logical + 1
            &&& b.0 > msg.physical && b.0 == state.physical ==> b.1 == state.logical + 1
        }),
{
}

/// A hybrid logical clock over a physical one.
pub struct Hlc<C> {
    state: HlcTimestamp,
    clock: C,
}

impl<C> View for Hlc<C> {
    type V = HlcTimestamp;

    closed spec fn view(&self) -> HlcTimestamp {
        self.state
    }
}

impl<C> Hlc<C> {
    /// The physical clock.
    pub closed spec fn clock(&self) -> C {
        self.clock
    }

    /// The last timestamp.
    pub fn read(&self) -> (r: HlcTimestamp)
        ensures
            r == self@,
    {
        self.state
    }
}

impl Hlc<()> {
    /// A clock over the system's time.
    pub fn new(physical: u64, logical: u32) -> (r: Hlc<impl Fn() -> u64>)
        ensures
            r@ == (HlcTimestamp { physical, logical }),
            call_requires(r.clock(), ()),
    {
        let clock = || -> (t: u64) { system_millis() };
        Hlc { state: HlcTimestamp { physical, logical }, clock }
    }
}

impl<C: Fn() -> u64> Hlc<C> {
    /// A clock over the given physical one.
    pub fn new_with_clock(physical: u64, logical: u32, clock: C) -> (r: Self)
        ensures
            r@ == (HlcTimestamp { physical, logical }),
            r.clock() == clock,
    {
        Hlc { state: HlcTimestamp { physical, logical }, clock }
    }

    /// What the physical clock shows.
    fn now(&self) -> (r: u64)
        requires
            call_requires(self.clock(), ()),
        ensures
            call_ensures(self.clock(), (), r),
    {
        let clock = &self.clock;
        clock()
    }

    /// A local event, whatever the physical clock shows.
    pub fn local_event(&mut self) -> (r: HlcTimestamp)
        requires
            call_requires(old(self).clock(), ()),
            forall|now: u64|
                call_ensures(old(self).clock(), (), now) ==> (#[trigger] local_next(
                    old(self)@,
                    now,
                )).1 <= u32::MAX,
        ensures
            final(self).clock() == old(self).clock(),
            final(self)@ == r,
            exists|now: u64|
                call_ensures(old(self).clock(), (), now) && r == stamp(
                    #[trigger] local_next(old(self)@, now),
                ),
            timestamp::ts_lt(old(self)@, r),
    {
        let now: u64 = self.now();
        let ghost before = self.state;
        assert(call_ensures(old(self).clock(), (), now));
        assert(old(self)@ == before);
        assert(local_next(old(self)@, now).1 <= u32::MAX);
        self.state = next_local(self.state, now);
        proof {
            lemma_local_event_is_later(before, now);
        }
        self.state
    }

    /// The receipt of a message, whatever the physical clock shows.
    pub fn receive(&mut self, msg_ts: HlcTimestamp) -> (r: HlcTimestamp)
        requires
            call_requires(old(self).clock(), ()),
            forall|now: u64|
                call_ensures(old(self).clock(), (), now) ==> (#[trigger] receive_next(
                    old(self)@,
                    msg_ts,
                    now,
                )).1 <= u32::MAX,
        ensures
            final(self).clock() == old(self).clock(),
            final(self)@ == r,
            exists|now: u64|
                call_ensures(old(self).clock(), (), now) && r == stamp(
                    #[trigger] receive_next(old(self)@, msg_ts, now),
                ),
            timestamp::ts_lt(old(self)@, r),
            timestamp::ts_lt(msg_ts, r),
    {
        let now: u64 = self.now();
        let ghost before = self.state;
        assert(call_ensures(old(self).clock(), (), now));
        assert(old(self)@ == before);
        assert(receive_next(old(self)@, msg_ts, now).1 <= u32::MAX);
        self.state = next_receive(self.state, msg_ts, now);
        proof {
            lemma_receipt_is_later(before, msg_ts, now);
        }
        self.state
    }
}

} // verus!
