//! Interval pacing of a finite sequence of work items.
//!
//! `IntervalIter` is a pull-based pacing decorator: each pull yields the
//! next item of an underlying finite sequence together with how long the
//! caller must wait before acting on it, so that successive ticks start
//! `interval_ms` apart net of the time the caller's own work already took.
//! The caller performs the actual sleep; the decision of how long to sleep
//! is computed, and proved, here.

use vstd::prelude::*;

verus! {

/// The wait before a tick: the pacing interval less the time the
/// consumer's work on the previous tick already took, clamped at zero.
pub open spec fn wait_spec(interval_ms: u64, elapsed_ms: u64) -> u64 {
    if elapsed_ms >= interval_ms {
        0
    } else {
        (interval_ms - elapsed_ms) as u64
    }
}

/// Total waiting time over a run whose per-tick work took the given times.
pub open spec fn total_wait(interval_ms: u64, elapsed: Seq<u64>) -> int
    decreases elapsed.len(),
{
    if elapsed.len() == 0 {
        0
    } else {
        total_wait(interval_ms, elapsed.drop_last()) + wait_spec(interval_ms, elapsed.last())
    }
}

/// Total time a run occupies: per-tick work plus the wait after it.
pub open spec fn total_tick_time(interval_ms: u64, elapsed: Seq<u64>) -> int
    decreases elapsed.len(),
{
    if elapsed.len() == 0 {
        0
    } else {
        total_tick_time(interval_ms, elapsed.drop_last()) + elapsed.last() + wait_spec(
            interval_ms,
            elapsed.last(),
        )
    }
}

/// Law: as long as each tick's work stays within the interval, work and
/// wait add up to exactly the interval, so a run of `n` ticks takes
/// exactly `n` times the interval — the pacing absorbs the work.
pub proof fn lemma_drift_compensation(interval_ms: u64, elapsed: Seq<u64>)
    requires
        forall|i: int| 0 <= i < elapsed.len() ==> #[trigger] elapsed[i] <= interval_ms,
    ensures
        total_tick_time(interval_ms, elapsed) == elapsed.len() * interval_ms,
    decreases elapsed.len(),
{
    if elapsed.len() > 0 {
        lemma_drift_compensation(interval_ms, elapsed.drop_last());
        assert((elapsed.len() - 1) * interval_ms + interval_ms == elapsed.len() * interval_ms)
            by (nonlinear_arith);
    }
}

/// Law: with negligible per-tick work, the total wait over `n` ticks is
/// exactly `n` times the interval.
pub proof fn lemma_steady_pacing(interval_ms: u64, elapsed: Seq<u64>)
    requires
        forall|i: int| 0 <= i < elapsed.len() ==> #[trigger] elapsed[i] == 0,
    ensures
        total_wait(interval_ms, elapsed) == elapsed.len() * interval_ms,
    decreases elapsed.len(),
{
    if elapsed.len() > 0 {
        lemma_steady_pacing(interval_ms, elapsed.drop_last());
        assert((elapsed.len() - 1) * interval_ms + interval_ms == elapsed.len() * interval_ms)
            by (nonlinear_arith);
    }
}

/// Yields the items of a finite sequence in order, pacing them by a fixed
/// interval; a terminal `None` ends the sequence for good.
pub struct IntervalIter<T> {
    items: Vec<T>,
    interval_ms: u64,
}

impl<T> IntervalIter<T> {
    /// The items not yet yielded, oldest first.
    pub closed spec fn remaining(&self) -> Seq<T> {
        self.items@
    }

    /// The pacing interval, in milliseconds.
    pub closed spec fn spec_interval(&self) -> u64 {
        self.interval_ms
    }

    /// Wraps a sequence of items for paced consumption.
    pub fn new(items: Vec<T>, interval_ms: u64) -> (r: Self)
        ensures
            r.remaining() == items@,
            r.spec_interval() == interval_ms,
    {
        IntervalIter { items, interval_ms }
    }

    /// One pull. `elapsed_ms` is how long the caller's work since the
    /// previous pull took; the returned wait is the interval less that
    /// time, clamped at zero, so that work beyond the interval never
    /// produces a sleep and an exhausted sequence yields nothing and
    /// waits for nothing.
    pub fn next(&mut self, elapsed_ms: u64) -> (r: Option<(T, u64)>)
        ensures
            final(self).spec_interval() == old(self).spec_interval(),
            old(self).remaining().len() == 0 ==> r is None && final(self).remaining()
                == old(self).remaining(),
            old(self).remaining().len() > 0 ==> r == Some(
                (
                    old(self).remaining()[0],
                    wait_spec(old(self).spec_interval(), elapsed_ms),
                ),
            ) && final(self).remaining() == old(self).remaining().drop_first(),
            elapsed_ms >= old(self).spec_interval() && old(self).remaining().len() > 0 ==> (r
                matches Some(p) && p.1 == 0),
    {
        if self.items.len() == 0 {
            return None;
        }
        let item = self.items.remove(0);
        proof {
            assert(old(self).items@.remove(0) =~= old(self).items@.drop_first());
        }
        let wait = if elapsed_ms >= self.interval_ms {
            0
        } else {
            self.interval_ms - elapsed_ms
        };
        Some((item, wait))
    }
}

/// Attaches interval pacing to any finite supplier of items, in the style
/// of an iterator adaptor.
pub trait IntervalIterator<T>: Sized {
    /// The items the implementor will supply, in order.
    spec fn seq_view(&self) -> Seq<T>;

    /// Wraps the items in a pacing decorator with the given interval.
    fn with_interval(self, interval_ms: u64) -> (r: IntervalIter<T>)
        ensures
            r.remaining() == self.seq_view(),
            r.spec_interval() == interval_ms,
    ;
}

impl<T> IntervalIterator<T> for Vec<T> {
    open spec fn seq_view(&self) -> Seq<T> {
        self@
    }

    fn with_interval(self, interval_ms: u64) -> (r: IntervalIter<T>) {
        IntervalIter::new(self, interval_ms)
    }
}

} // verus!
