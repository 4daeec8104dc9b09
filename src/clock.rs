//! Instrumentation: accumulated times and event counts, keyed by tag. A
//! `Tallies` value holds them; the caller supplies clock readings.
use vstd::prelude::*;

verus! {

/// The phases that are timed.
#[derive(Debug, Clone, Copy, PartialEq, Eq, Structural)]
pub enum Timer {
    DecodeFrame,
    DecodeCheckpoint,
    DecodeStatestream,
    EncodeFrame,
    EncodeCheckpoint,
    EncodeStatestream,
}

/// The events that are counted.
#[derive(Debug, Clone, Copy, PartialEq, Eq, Structural)]
pub enum Counter {
    EncReusedBlocks,
    EncReusedSuperblocks,
    EncSkippedBlocks,
    EncMemCmps,
    EncHashes,
    EncTotalBlocks,
    EncTotalSuperblocks,
    EncTotalKBsIn,
    EncTotalKBsOut,
    DecSkippedSuperblocks,
    DecSkippedBlocks,
}

pub const TIMER_COUNT: usize = 6;

pub const COUNTER_COUNT: usize = 11;

impl Timer {
    pub open spec fn spec_index(self) -> nat {
        match self {
            Timer::DecodeFrame => 0,
            Timer::DecodeCheckpoint => 1,
            Timer::DecodeStatestream => 2,
            Timer::EncodeFrame => 3,
            Timer::EncodeCheckpoint => 4,
            Timer::EncodeStatestream => 5,
        }
    }

    /// The timer's slot.
    pub fn index(self) -> (r: usize)
        ensures
            r == self.spec_index(),
            r < TIMER_COUNT,
    {
        match self {
            Timer::DecodeFrame => 0,
            Timer::DecodeCheckpoint => 1,
            Timer::DecodeStatestream => 2,
            Timer::EncodeFrame => 3,
            Timer::EncodeCheckpoint => 4,
            Timer::EncodeStatestream => 5,
        }
    }
}

impl Counter {
    pub open spec fn spec_index(self) -> nat {
        match self {
            Counter::EncReusedBlocks => 0,
            Counter::EncReusedSuperblocks => 1,
            Counter::EncSkippedBlocks => 2,
            Counter::EncMemCmps => 3,
            Counter::EncHashes => 4,
            Counter::EncTotalBlocks => 5,
            Counter::EncTotalSuperblocks => 6,
            Counter::EncTotalKBsIn => 7,
            Counter::EncTotalKBsOut => 8,
            Counter::DecSkippedSuperblocks => 9,
            Counter::DecSkippedBlocks => 10,
        }
    }

    /// The counter's slot.
    pub fn index(self) -> (r: usize)
        ensures
            r == self.spec_index(),
            r < COUNTER_COUNT,
    {
        match self {
            Counter::EncReusedBlocks => 0,
            Counter::EncReusedSuperblocks => 1,
            Counter::EncSkippedBlocks => 2,
            Counter::EncMemCmps => 3,
            Counter::EncHashes => 4,
            Counter::EncTotalBlocks => 5,
            Counter::EncTotalSuperblocks => 6,
            Counter::EncTotalKBsIn => 7,
            Counter::EncTotalKBsOut => 8,
            Counter::DecSkippedSuperblocks => 9,
            Counter::DecSkippedBlocks => 10,
        }
    }
}

/// How often a phase ran, and for how many microseconds in all.
#[derive(Debug, Clone, Copy, PartialEq, Eq, Structural)]
pub struct Times {
    pub count: u64,
    pub micros: u64,
}

/// Accumulated times and counts. Sums wrap around at 2^64, as atomic adds do.
pub struct Tallies {
    time_acc: Vec<u64>,
    time_counts: Vec<u64>,
    counts: Vec<u64>,
}

pub struct TalliesView {
    pub micros: Seq<u64>,
    pub runs: Seq<u64>,
    pub counts: Seq<u64>,
}

impl View for Tallies {
    type V = TalliesView;

    closed spec fn view(&self) -> TalliesView {
        TalliesView { micros: self.time_acc@, runs: self.time_counts@, counts: self.counts@ }
    }
}

pub open spec fn wrapping_add(a: u64, b: u64) -> u64 {
    if a + b > u64::MAX {
        (a + b - u64::MAX - 1) as u64
    } else {
        (a + b) as u64
    }
}

fn zeroes(n: usize) -> (r: Vec<u64>)
    ensures
        r@ == Seq::new(n as nat, |i: int| 0u64),
{
    let mut r: Vec<u64> = Vec::new();
    while r.len() < n
        invariant
            r@.len() <= n,
            forall|i: int| 0 <= i < r@.len() ==> r@[i] == 0,
        decreases n - r@.len(),
    {
        r.push(0);
    }
    assert(r@ =~= Seq::new(n as nat, |i: int| 0u64));
    r
}

impl Tallies {
    pub open spec fn wf(&self) -> bool {
        &&& self@.micros.len() == TIMER_COUNT
        &&& self@.runs.len() == TIMER_COUNT
        &&& self@.counts.len() == COUNTER_COUNT
    }

    /// All times and counts zero.
    pub fn new() -> (r: Tallies)
        ensures
            r.wf(),
            forall|i: int| 0 <= i < TIMER_COUNT ==> r@.micros[i] == 0 && r@.runs[i] == 0,
            forall|i: int| 0 <= i < COUNTER_COUNT ==> r@.counts[i] == 0,
    {
        Tallies {
            time_acc: zeroes(TIMER_COUNT),
            time_counts: zeroes(TIMER_COUNT),
            counts: zeroes(COUNTER_COUNT),
        }
    }
}

/// A running measurement of one phase, started at a clock reading in microseconds.
#[derive(Debug, Clone, Copy, PartialEq, Eq, Structural)]
pub struct Stopwatch {
    pub timer: Timer,
    pub started: u64,
}

/// Starts timing `t` at clock reading `now_micros`.
pub fn time(t: Timer, now_micros: u64) -> (r: Stopwatch)
    ensures
        r.timer == t,
        r.started == now_micros,
{
    Stopwatch::new(t, now_micros)
}

impl Stopwatch {
    /// A measurement of `t` started at clock reading `now_micros`.
    pub fn new(t: Timer, now_micros: u64) -> (r: Stopwatch)
        ensures
            r.timer == t,
            r.started == now_micros,
    {
        Stopwatch { timer: t, started: now_micros }
    }

    /// Stops the measurement at clock reading `now_micros`: the elapsed time
    /// (zero if the clock went back) is added to the timer, and its run count
    /// grows by one.
    pub fn stop(self, tallies: &mut Tallies, now_micros: u64)
        requires
            old(tallies).wf(),
        ensures
            final(tallies).wf(),
            ({
                let i = self.timer.spec_index() as int;
                let elapsed = if now_micros >= self.started {
                    (now_micros - self.started) as u64
                } else {
                    0u64
                };
                &&& final(tallies)@.micros == old(tallies)@.micros.update(
                    i,
                    wrapping_add(old(tallies)@.micros[i], elapsed),
                )
                &&& final(tallies)@.runs == old(tallies)@.runs.update(
                    i,
                    wrapping_add(old(tallies)@.runs[i], 1),
                )
                &&& final(tallies)@.counts == old(tallies)@.counts
            }),
    {
        let i = self.timer.index();
        let elapsed = if now_micros >= self.started {
            now_micros - self.started
        } else {
            0
        };
        let m = tallies.time_acc[i].wrapping_add(elapsed);
        tallies.time_acc.set(i, m);
        let c = tallies.time_counts[i].wrapping_add(1);
        tallies.time_counts.set(i, c);
    }
}

/// Adds `amt` to counter `c` and returns the new total.
pub fn count(tallies: &mut Tallies, c: Counter, amt: u64) -> (r: u64)
    requires
        old(tallies).wf(),
    ensures
        final(tallies).wf(),
        r == wrapping_add(old(tallies)@.counts[c.spec_index() as int], amt),
        final(tallies)@.counts == old(tallies)@.counts.update(c.spec_index() as int, r),
        final(tallies)@.micros == old(tallies)@.micros,
        final(tallies)@.runs == old(tallies)@.runs,
{
    let i = c.index();
    let v = tallies.counts[i].wrapping_add(amt);
    tallies.counts.set(i, v);
    v
}

/// The runs and total time of `t`.
pub fn stats(tallies: &Tallies, t: Timer) -> (r: Times)
    requires
        tallies.wf(),
    ensures
        r.count == tallies@.runs[t.spec_index() as int],
        r.micros == tallies@.micros[t.spec_index() as int],
{
    let i = t.index();
    Times { count: tallies.time_counts[i], micros: tallies.time_acc[i] }
}

/// The total of counter `c`.
pub fn counts(tallies: &Tallies, c: Counter) -> (r: u64)
    requires
        tallies.wf(),
    ensures
        r == tallies@.counts[c.spec_index() as int],
{
    tallies.counts[c.index()]
}

} // verus!
