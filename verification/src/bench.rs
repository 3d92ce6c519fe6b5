//! A stopwatch with 256 counters of nanoseconds, one for each id.

use std::time::Duration;
use std::time::Instant;
use vstd::prelude::*;

verus! {

/// `std::time::Instant`, a moment of the machine's clock. Nothing inside
/// it is visible to proofs.
#[verifier::external_type_specification]
#[verifier::external_body]
pub struct ExInstant(std::time::Instant);

/// The `Duration` that `Duration::from_nanos` makes of a number of
/// nanoseconds.
pub uninterp spec fn duration_of_nanos(nanos: u64) -> Duration;

/// `Instant::now`: the present moment. Nothing is claimed of it.
#[verifier::external_body]
pub(crate) fn now() -> (t: Instant) {
    Instant::now()
}

/// `Instant::elapsed`: the time that has passed since `since`. Nothing is
/// claimed of it.
#[verifier::external_body]
pub(crate) fn elapsed(since: &Instant) -> (d: Duration) {
    since.elapsed()
}

/// `Duration::as_nanos`: the whole nanoseconds of a duration. Nothing is
/// claimed of the number.
#[verifier::external_body]
fn as_nanos(d: &Duration) -> (n: u128) {
    d.as_nanos()
}

/// `Duration::from_nanos`: the duration of `nanos` nanoseconds. It depends
/// on the number alone.
#[verifier::external_body]
fn from_nanos(nanos: u64) -> (d: Duration)
    ensures
        d == duration_of_nanos(nanos),
{
    Duration::from_nanos(nanos)
}

/// The sum of two counts, stopping at the largest value.
pub open spec fn capped_sum(a: u64, b: u64) -> u64 {
    if a + b <= u64::MAX {
        (a + b) as u64
    } else {
        u64::MAX
    }
}

/// The counters after `nanos` were credited to `id`.
pub open spec fn credited(totals: Seq<u64>, id: u8, nanos: u64) -> Seq<u64> {
    totals.update(id as int, capped_sum(totals[id as int], nanos))
}

/// A stopwatch and its counters. A counter that is full stays full.
#[derive(Debug)]
pub struct Bench {
    instant: Instant,
    durations: [u64; 256],
}

impl Bench {
    /// The counters, by id.
    pub closed spec fn totals(&self) -> Seq<u64> {
        self.durations@
    }

    /// There are 256 counters.
    pub proof fn law_counters_are_256(&self)
        ensures
            self.totals().len() == 256,
    {
    }

    /// A stopwatch started now, with every counter at zero.
    pub fn new() -> (b: Self)
        ensures
            b.totals() == Seq::new(256, |i: int| 0u64),
    {
        let b = Self { instant: now(), durations: [0u64;256] };
        assert(b.totals() =~= Seq::new(256, |i: int| 0u64));
        b
    }

    /// Adds each counter of `other` to the counter of the same id.
    pub fn combine(&mut self, other: &Bench)
        ensures
            final(self).totals() == Seq::new(
                256,
                |i: int| capped_sum(old(self).totals()[i], other.totals()[i]),
            ),
            final(self).started() == old(self).started(),
    {
        let mut i: usize = 0;
        while i < 256
            invariant
                i <= 256,
                self.instant == old(self).instant,
                forall|j: int|
                    0 <= j < i ==> self.durations@[j] == capped_sum(
                        old(self).durations@[j],
                        other.durations@[j],
                    ),
                forall|j: int| i <= j < 256 ==> self.durations@[j] == old(self).durations@[j],
            decreases 256 - i,
        {
            let sum = self.durations[i].saturating_add(other.durations[i]);
            self.durations[i] = sum;
            i += 1;
        }
        assert(self.totals() =~= Seq::new(
            256,
            |i: int| capped_sum(old(self).totals()[i], other.totals()[i]),
        ));
    }

    /// Starts the stopwatch anew. The counters stay.
    pub fn start(&mut self)
        ensures
            final(self).totals() == old(self).totals(),
    {
        let at = now();
        self.start_at(at);
    }

    /// The moment from which the stopwatch runs.
    pub closed spec fn started(&self) -> Instant {
        self.instant
    }

    /// Lets the stopwatch run from the moment `at`. The counters stay.
    pub fn start_at(&mut self, at: Instant)
        ensures
            final(self).started() == at,
            final(self).totals() == old(self).totals(),
    {
        self.instant = at;
    }

    /// Credits `nanos` nanoseconds to the counter `id`.
    pub fn credit(&mut self, id: u8, nanos: u64)
        ensures
            final(self).totals() == credited(old(self).totals(), id, nanos),
            final(self).started() == old(self).started(),
    {
        let i: usize = id as usize;
        let sum = self.durations[i].saturating_add(nanos);
        self.durations[i] = sum;
    }

    /// Credits the time since `since` to the counter `id`: its nanoseconds,
    /// cut to 64 bits.
    fn credit_since(&mut self, id: u8, since: &Instant)
        ensures
            exists|nanos: u64| final(self).totals() == credited(old(self).totals(), id, nanos),
            final(self).started() == old(self).started(),
    {
        let passed = elapsed(since);
        let nanos = #[verifier::truncate] (as_nanos(&passed) as u64);
        self.credit(id, nanos);
    }

    /// Credits the time since the stopwatch was started to the counter
    /// `id`. Whatever time has passed, no other counter changes and this
    /// one does not fall.
    pub fn stop(&mut self, id: u8)
        ensures
            exists|nanos: u64| final(self).totals() == credited(old(self).totals(), id, nanos),
            final(self).started() == old(self).started(),
    {
        let since = self.instant;
        self.credit_since(id, &since);
    }

    /// Runs `f` and credits the time it took to the counter `id`.
    pub fn call_closure<F>(&mut self, id: u8, f: F) where F: FnOnce()
        requires
            f.requires(()),
        ensures
            exists|nanos: u64| final(self).totals() == credited(old(self).totals(), id, nanos),
            final(self).started() == old(self).started(),
    {
        let start = now();
        f();
        self.credit_since(id, &start);
    }

    /// Runs `f`, credits the time it took to the counter `id`, and hands
    /// back what `f` returned.
    pub fn call_return_closure<F, T>(&mut self, id: u8, f: F) -> (res: T) where F: Fn() -> T
        requires
            f.requires(()),
        ensures
            f.ensures((), res),
            exists|nanos: u64| final(self).totals() == credited(old(self).totals(), id, nanos),
            final(self).started() == old(self).started(),
    {
        let start = now();
        let res = f();
        self.credit_since(id, &start);
        res
    }

    /// Runs `f`, which may change what it holds, credits the time it took
    /// to the counter `id`, and hands back what `f` returned.
    pub fn call_return_closure_mut<F, T>(&mut self, id: u8, mut f: F) -> (res: T) where
        F: FnMut() -> T,

        requires
            f.requires(()),
        ensures
            f.ensures((), res),
            exists|nanos: u64| final(self).totals() == credited(old(self).totals(), id, nanos),
            final(self).started() == old(self).started(),
    {
        let start = now();
        let res = f();
        self.credit_since(id, &start);
        res
    }

    /// The nanoseconds credited to the counter `id`.
    pub fn get_nanos(&self, id: u8) -> (nanos: u64)
        ensures
            nanos == self.totals()[id as int],
    {
        self.durations[id as usize]
    }

    /// The time credited to the counter `id`.
    pub fn get_duration(&self, id: u8) -> (d: Duration)
        ensures
            d == duration_of_nanos(self.totals()[id as int]),
    {
        from_nanos(self.durations[id as usize])
    }

    /// Sets the counter `id` back to zero.
    pub fn reset(&mut self, id: u8)
        ensures
            final(self).totals() == old(self).totals().update(id as int, 0u64),
            final(self).started() == old(self).started(),
    {
        self.durations[id as usize] = 0;
    }
}

} // verus!
