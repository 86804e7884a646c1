//! The in-flight reaper: the stage of the pipeline that holds the requests
//! under way, never more than the limit, and takes in new ones as others
//! complete.
//!
//! The stage waits for two things, a new request from upstream and the
//! completion of one under way. What it waits for next is decided here, as
//! a state machine: each thing that happens is an event, and the state after
//! a run of events says what to do next.

use vstd::prelude::*;

verus! {

/// What the reaper does next.
#[derive(Clone, Copy, Debug, PartialEq, Eq, Structural)]
pub enum Step {
    /// There is room: wait for a new request from upstream or, if any is
    /// under way, for a completion, whichever comes first.
    Fill,
    /// There is no room, or upstream has closed: wait for a completion.
    Drain,
    /// Nothing is under way and nothing may be taken in. This happens only
    /// with a limit of 0, and lasts forever.
    Idle,
    /// Upstream has closed and nothing is under way: the stage is done.
    Exit,
}

/// What can happen to the reaper.
#[derive(Clone, Copy, Debug, PartialEq, Eq, Structural)]
pub enum ReaperEvent {
    /// A request came from upstream and was started.
    Admitted,
    /// A request under way completed, with a response or with an error.
    Completed { ok: bool },
    /// Upstream closed: no more requests will come.
    UpstreamClosed,
}

/// The state of the reaper, with the count of what has happened so far.
pub struct ReaperState {
    /// The most requests that may be under way at once.
    pub limit: nat,
    pub in_flight: nat,
    pub upstream_open: bool,
    pub admitted: nat,
    /// Completions with a response: each gives one line of output.
    pub succeeded: nat,
    /// Completions with an error: each gives one line on standard error.
    pub failed: nat,
}

/// The state at the start: nothing under way, upstream open.
pub open spec fn initial(limit: nat) -> ReaperState {
    ReaperState {
        limit,
        in_flight: 0,
        upstream_open: true,
        admitted: 0,
        succeeded: 0,
        failed: 0,
    }
}

/// What the reaper does next in a state.
pub open spec fn step_of(state: ReaperState) -> Step {
    if state.upstream_open && state.in_flight < state.limit {
        Step::Fill
    } else if state.in_flight > 0 {
        Step::Drain
    } else if state.upstream_open {
        Step::Idle
    } else {
        Step::Exit
    }
}

/// Whether an event can happen in a state: the reaper takes from upstream
/// only when filling, and only a request under way can complete.
pub open spec fn enabled(state: ReaperState, event: ReaperEvent) -> bool {
    match event {
        ReaperEvent::Admitted => step_of(state) == Step::Fill,
        ReaperEvent::Completed { ok } => state.in_flight > 0,
        ReaperEvent::UpstreamClosed => step_of(state) == Step::Fill,
    }
}

/// The state after an event.
pub open spec fn after(state: ReaperState, event: ReaperEvent) -> ReaperState {
    match event {
        ReaperEvent::Admitted => ReaperState {
            in_flight: state.in_flight + 1,
            admitted: state.admitted + 1,
            ..state
        },
        ReaperEvent::Completed { ok } => ReaperState {
            in_flight: (state.in_flight - 1) as nat,
            succeeded: if ok {
                state.succeeded + 1
            } else {
                state.succeeded
            },
            failed: if ok {
                state.failed
            } else {
                state.failed + 1
            },
            ..state
        },
        ReaperEvent::UpstreamClosed => ReaperState { upstream_open: false, ..state },
    }
}

/// The state after a run of events, from the start.
pub open spec fn run(limit: nat, events: Seq<ReaperEvent>) -> ReaperState
    decreases events.len(),
{
    if events.len() == 0 {
        initial(limit)
    } else {
        after(run(limit, events.drop_last()), events.last())
    }
}

/// A run in which each event could happen in the state before it.
pub open spec fn valid_run(limit: nat, events: Seq<ReaperEvent>) -> bool
    decreases events.len(),
{
    events.len() == 0 || (valid_run(limit, events.drop_last()) && enabled(
        run(limit, events.drop_last()),
        events.last(),
    ))
}

/// The number of requests that a run took in.
pub open spec fn admissions(events: Seq<ReaperEvent>) -> nat {
    events.filter(|e: ReaperEvent| e == ReaperEvent::Admitted).len()
}

/// In every state that a valid run reaches, the requests under way are
/// within the limit, and each request taken in is under way, has succeeded
/// or has failed.
pub proof fn lemma_run_invariant(limit: nat, events: Seq<ReaperEvent>)
    requires
        valid_run(limit, events),
    ensures
        run(limit, events).limit == limit,
        run(limit, events).in_flight <= limit,
        run(limit, events).admitted == run(limit, events).in_flight + run(limit, events).succeeded
            + run(limit, events).failed,
    decreases events.len(),
{
    if events.len() > 0 {
        lemma_run_invariant(limit, events.drop_last());
    }
}

/// Every beginning of a valid run is a valid run.
pub proof fn lemma_valid_run_prefix(limit: nat, events: Seq<ReaperEvent>, n: int)
    requires
        valid_run(limit, events),
        0 <= n <= events.len(),
    ensures
        valid_run(limit, events.take(n)),
    decreases events.len(),
{
    if n == events.len() {
        assert(events.take(n) == events);
    } else {
        assert(events.drop_last().take(n) == events.take(n));
        lemma_valid_run_prefix(limit, events.drop_last(), n);
    }
}

/// At no instant of a run are more requests under way than the limit: the
/// bound holds after every event of the run.
pub proof fn lemma_never_over_limit(limit: nat, events: Seq<ReaperEvent>, n: int)
    requires
        valid_run(limit, events),
        0 <= n <= events.len(),
    ensures
        run(limit, events.take(n)).in_flight <= limit,
{
    lemma_valid_run_prefix(limit, events, n);
    lemma_run_invariant(limit, events.take(n));
}

/// With a limit of at least 1 the reaper is never stuck: as long as
/// upstream is open or a request is under way it waits for an event that
/// can happen, and it is done exactly when upstream has closed and nothing
/// is under way.
pub proof fn lemma_progress(state: ReaperState)
    requires
        state.limit >= 1,
        state.in_flight <= state.limit,
    ensures
        step_of(state) != Step::Idle,
        step_of(state) == Step::Exit <==> !state.upstream_open && state.in_flight == 0,
        step_of(state) == Step::Fill ==> enabled(state, ReaperEvent::Admitted) && enabled(
            state,
            ReaperEvent::UpstreamClosed,
        ),
        step_of(state) == Step::Drain ==> enabled(state, ReaperEvent::Completed { ok: true })
            && enabled(state, ReaperEvent::Completed { ok: false }),
{
}

/// When a run ends with the reaper done, every request that was taken in
/// has completed: the responses and the errors together are as many as the
/// requests.
pub proof fn lemma_all_accounted(limit: nat, events: Seq<ReaperEvent>)
    requires
        valid_run(limit, events),
        step_of(run(limit, events)) == Step::Exit,
    ensures
        run(limit, events).succeeded + run(limit, events).failed == admissions(events),
        run(limit, events).in_flight == 0,
        !run(limit, events).upstream_open,
{
    lemma_run_invariant(limit, events);
    lemma_admitted_counts_admissions(limit, events);
}

/// The count of requests taken in is the number of admissions in the run.
pub proof fn lemma_admitted_counts_admissions(limit: nat, events: Seq<ReaperEvent>)
    ensures
        run(limit, events).admitted == admissions(events),
    decreases events.len(),
{
    let pred = |e: ReaperEvent| e == ReaperEvent::Admitted;
    if events.len() == 0 {
        events.lemma_filter_len(pred);
    } else {
        let init = events.drop_last();
        lemma_admitted_counts_admissions(limit, init);
        assert(init.push(events.last()) == events);
        init.lemma_filter_len_push(pred, events.last());
    }
}

/// The reaper of one run of the pipeline.
pub struct Reaper {
    limit: usize,
    in_flight: usize,
    upstream_open: bool,
    events: Ghost<Seq<ReaperEvent>>,
}

impl Reaper {
    /// Everything that has happened to the reaper so far.
    pub closed spec fn events(&self) -> Seq<ReaperEvent> {
        self.events@
    }

    /// The limit that the reaper was made with.
    pub closed spec fn limit(&self) -> nat {
        self.limit as nat
    }

    /// The state of the reaper: that after the run of its events.
    pub open spec fn state(&self) -> ReaperState {
        run(self.limit(), self.events())
    }

    /// The invariant of every value: its events are a valid run, and it
    /// holds the counts of the state after them.
    #[verifier::type_invariant]
    pub closed spec fn wf(&self) -> bool {
        &&& valid_run(self.limit as nat, self.events@)
        &&& self.in_flight == run(self.limit as nat, self.events@).in_flight
        &&& self.upstream_open == run(self.limit as nat, self.events@).upstream_open
    }

    /// A reaper that lets at most `limit` requests be under way at once.
    pub fn new(limit: usize) -> (reaper: Reaper)
        ensures
            reaper.wf(),
            reaper.limit() == limit,
            reaper.events() == Seq::<ReaperEvent>::empty(),
    {
        Reaper { limit, in_flight: 0, upstream_open: true, events: Ghost(Seq::empty()) }
    }

    /// The number of requests under way, which never exceeds the limit.
    pub fn in_flight(&self) -> (n: usize)
        ensures
            n == self.state().in_flight,
            n <= self.limit(),
    {
        proof {
            use_type_invariant(self);
            lemma_run_invariant(self.limit as nat, self.events@);
        }
        self.in_flight
    }

    /// What to do next.
    pub fn next_step(&self) -> (step: Step)
        ensures
            step == step_of(self.state()),
    {
        proof {
            use_type_invariant(self);
            lemma_run_invariant(self.limit as nat, self.events@);
        }
        if self.upstream_open && self.in_flight < self.limit {
            Step::Fill
        } else if self.in_flight > 0 {
            Step::Drain
        } else if self.upstream_open {
            Step::Idle
        } else {
            Step::Exit
        }
    }

    /// Notes an event, if it can happen in the present state; otherwise
    /// nothing changes and `false` is returned.
    pub fn record(&mut self, event: ReaperEvent) -> (accepted: bool)
        ensures
            accepted == enabled(old(self).state(), event),
            final(self).limit() == old(self).limit(),
            accepted ==> final(self).events() == old(self).events().push(event),
            !accepted ==> final(self).events() == old(self).events(),
    {
        proof {
            use_type_invariant(&*self);
            lemma_run_invariant(self.limit as nat, self.events@);
        }
        let ghost before = self.events@;
        let filling = self.upstream_open && self.in_flight < self.limit;
        let (in_flight, upstream_open) = match event {
            ReaperEvent::Admitted => {
                if !filling {
                    return false;
                }
                (self.in_flight + 1, self.upstream_open)
            },
            ReaperEvent::Completed { ok } => {
                if self.in_flight == 0 {
                    return false;
                }
                (self.in_flight - 1, self.upstream_open)
            },
            ReaperEvent::UpstreamClosed => {
                if !filling {
                    return false;
                }
                (self.in_flight, false)
            },
        };
        assert(before.push(event).drop_last() == before);
        *self = Reaper {
            limit: self.limit,
            in_flight,
            upstream_open,
            events: Ghost(before.push(event)),
        };
        true
    }
}

} // verus!
