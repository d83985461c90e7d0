//! The sampling orchestrator.
//!
//! One ingestion side turns inbound messages into validated commands and
//! appends them to a waiting queue; one execution side begins the oldest
//! waiting command's run and pulls its paced ticks one at a time. Exactly
//! one command runs at a time: commands arriving while a run is in flight
//! wait in the queue, and runs begin in exactly arrival order.

use vstd::prelude::*;
use crate::command::Command;
use crate::command::ParseError;
use crate::command::parse_spec;
use crate::interval_iterator::IntervalIter;
use crate::interval_iterator::wait_spec;

verus! {

/// Tick indices of a run of `n` measurements: counting down from `n - 1`
/// to `0`, each the number of samples still owed after its own.
pub open spec fn countdown_spec(n: u16) -> Seq<u16> {
    Seq::new(n as nat, |i: int| (n - 1 - i) as u16)
}

/// The tick indices `n - 1, ..., 1, 0`, materialized oldest first.
fn countdown(n: u16) -> (r: Vec<u16>)
    ensures
        r@ == countdown_spec(n),
{
    let mut r: Vec<u16> = Vec::new();
    let mut i: u16 = 0;
    while i < n
        invariant
            i <= n,
            r@.len() == i as int,
            forall|k: int| 0 <= k < i ==> #[trigger] r@[k] == n - 1 - k,
        decreases n - i,
    {
        r.push(n - 1 - i);
        i += 1;
    }
    proof {
        assert(r@ =~= countdown_spec(n));
    }
    r
}

/// Queue of waiting commands plus the in-flight run, with the ghost
/// history that ties them to arrival order.
pub struct Orchestrator {
    queue: Vec<Command>,
    run: Option<IntervalIter<u16>>,
    arrived: Ghost<Seq<Command>>,
    begun: Ghost<Seq<Command>>,
}

impl Orchestrator {
    /// Commands waiting to run, oldest first.
    pub closed spec fn pending(&self) -> Seq<Command> {
        self.queue@
    }

    /// Every command that ever arrived (parsed successfully), in order.
    pub closed spec fn arrivals(&self) -> Seq<Command> {
        self.arrived@
    }

    /// Every command whose run has begun, in begin order.
    pub closed spec fn begun_runs(&self) -> Seq<Command> {
        self.begun@
    }

    /// True while a run is in flight.
    pub closed spec fn running(&self) -> bool {
        self.run is Some
    }

    /// Tick indices the in-flight run has still to yield.
    pub closed spec fn run_remaining(&self) -> Seq<u16> {
        match self.run {
            Some(it) => it.remaining(),
            None => seq![],
        }
    }

    /// Pacing interval of the in-flight run, in milliseconds.
    pub closed spec fn run_interval(&self) -> u64 {
        match self.run {
            Some(it) => it.spec_interval(),
            None => 0,
        }
    }

    /// The queue discipline: the runs begun so far, in order, followed by
    /// the commands still waiting, in order, are exactly the arrivals, in
    /// order.
    pub open spec fn wf(&self) -> bool {
        self.arrivals() == self.begun_runs() + self.pending()
    }

    /// An idle orchestrator: nothing queued, nothing running.
    pub fn new() -> (r: Orchestrator)
        ensures
            r.wf(),
            !r.running(),
            r.pending() == Seq::<Command>::empty(),
            r.begun_runs() == Seq::<Command>::empty(),
            r.arrivals() == Seq::<Command>::empty(),
    {
        let r = Orchestrator {
            queue: Vec::new(),
            run: None,
            arrived: Ghost(Seq::empty()),
            begun: Ghost(Seq::empty()),
        };
        proof {
            assert(r.arrivals() =~= r.begun_runs() + r.pending());
        }
        r
    }

    /// Ingests one inbound message: on a successful parse the command
    /// joins the back of the waiting queue; a failed parse changes
    /// nothing and reports the error for logging. The in-flight run is
    /// never affected by ingestion.
    pub fn submit(&mut self, message: &[u8]) -> (r: Result<(), ParseError>)
        requires
            old(self).wf(),
        ensures
            final(self).wf(),
            final(self).running() == old(self).running(),
            final(self).run_remaining() == old(self).run_remaining(),
            final(self).run_interval() == old(self).run_interval(),
            final(self).begun_runs() == old(self).begun_runs(),
            match parse_spec(message@) {
                Ok(c) => r == Ok::<(), ParseError>(()) && final(self).pending() == old(self).pending().push(c) && final(self).arrivals() == old(self).arrivals().push(c),
                Err(e) => r == Err::<(), ParseError>(e) && final(self).pending() == old(self).pending() && final(self).arrivals() == old(self).arrivals(),
            },
    {
        match Command::parse(message) {
            Ok(c) => {
                self.queue.push(c);
                self.arrived = Ghost(self.arrived@.push(c));
                proof {
                    assert(self.arrivals() =~= self.begun_runs() + self.pending());
                }
                Ok(())
            },
            Err(e) => Err(e),
        }
    }

    /// Begins the oldest waiting command's run: its countdown of tick
    /// indices, paced at its interval. Never begins one while a run is
    /// still in flight (there is no cancellation), and does nothing when
    /// nothing waits.
    pub fn start_next(&mut self) -> (r: Option<Command>)
        requires
            old(self).wf(),
        ensures
            final(self).wf(),
            final(self).arrivals() == old(self).arrivals(),
            old(self).running() ==> r is None && final(self).pending() == old(self).pending()
                && final(self).begun_runs() == old(self).begun_runs() && final(self).running()
                && final(self).run_remaining() == old(self).run_remaining() && final(self).run_interval() == old(self).run_interval(),
            !old(self).running() && old(self).pending().len() == 0 ==> r is None && !final(self).running() && final(self).pending() == old(self).pending() && final(self).begun_runs()
                == old(self).begun_runs(),
            !old(self).running() && old(self).pending().len() > 0 ==> r == Some(
                old(self).pending()[0],
            ) && final(self).pending() == old(self).pending().drop_first() && final(self).begun_runs() == old(self).begun_runs().push(old(self).pending()[0]) && final(self).running() && final(self).run_remaining() == countdown_spec(
                old(self).pending()[0].num_measurements,
            ) && final(self).run_interval() == old(self).pending()[0].interval_ms as u64,
    {
        if self.run.is_some() {
            return None;
        }
        if self.queue.len() == 0 {
            return None;
        }
        let c = self.queue.remove(0);
        let ticks = countdown(c.num_measurements);
        self.run = Some(IntervalIter::new(ticks, c.interval_ms as u64));
        self.begun = Ghost(self.begun@.push(c));
        proof {
            assert(old(self).queue@.remove(0) =~= old(self).queue@.drop_first());
            assert(old(self).queue@ =~= seq![c] + self.queue@);
            assert(self.arrivals() =~= self.begun_runs() + self.pending());
        }
        Some(c)
    }

    /// One pull on the in-flight run: the next tick index, counting
    /// down, and how long to wait before taking its sample — the run's
    /// interval less the caller's `elapsed_ms` of work on the previous
    /// tick, clamped at zero. Ends the run, yielding `None`, once the
    /// countdown is exhausted; yields `None` too while no run is in
    /// flight. The waiting queue is never touched.
    pub fn next_tick(&mut self, elapsed_ms: u64) -> (r: Option<(u16, u64)>)
        requires
            old(self).wf(),
        ensures
            final(self).wf(),
            final(self).pending() == old(self).pending(),
            final(self).arrivals() == old(self).arrivals(),
            final(self).begun_runs() == old(self).begun_runs(),
            !old(self).running() ==> r is None && !final(self).running(),
            old(self).running() && old(self).run_remaining().len() == 0 ==> r is None && !final(self).running(),
            old(self).running() && old(self).run_remaining().len() > 0 ==> r == Some(
                (old(self).run_remaining()[0], wait_spec(old(self).run_interval(), elapsed_ms)),
            ) && final(self).running() && final(self).run_remaining() == old(self).run_remaining().drop_first() && final(self).run_interval() == old(self).run_interval(),
    {
        let cur = self.run.take();
        match cur {
            None => None,
            Some(mut it) => {
                let stepped = it.next(elapsed_ms);
                match stepped {
                    None => None,
                    Some((idx, wait)) => {
                        self.run = Some(it);
                        Some((idx, wait))
                    },
                }
            },
        }
    }
}

/// Law: runs begin in exactly arrival order. In any well-formed
/// orchestrator, a command whose run has begun is the arrival of the same
/// position, so no command can begin before one that arrived earlier.
pub proof fn lemma_runs_begin_in_arrival_order(o: &Orchestrator, i: int, j: int)
    requires
        o.wf(),
        0 <= i <= j,
        j < o.begun_runs().len(),
    ensures
        o.begun_runs()[j] == o.arrivals()[j],
        o.begun_runs()[i] == o.arrivals()[i],
{
}

/// Law: a command still waiting behind `k` others runs only after those
/// `k` runs: it stands at position `begun + k` of the arrival order.
pub proof fn lemma_waiting_commands_run_after(o: &Orchestrator, k: int)
    requires
        o.wf(),
        0 <= k < o.pending().len(),
    ensures
        o.pending()[k] == o.arrivals()[o.begun_runs().len() + k],
{
}

} // verus!
