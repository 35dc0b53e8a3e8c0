//! The `Scheduler`: deterministic invocation of registered callbacks against
//! a `World`.
//!
//! Callbacks are values of a user type implementing `System`. A run invokes
//! every startup callback once in registration order, then loops: per tick,
//! every update callback in registration order. A stop signal is read at tick
//! boundaries, never mid-tick. A callback's non-fatal fault is reported and
//! the tick continues; a fatal fault stops the scheduler. The run returns a
//! `RunReport` whose event trace records every invocation; the contracts pin
//! the trace's shape down completely.

use vstd::prelude::*;
use crate::world::World;

verus! {

/// The phase a callback belongs to.
#[derive(Clone, Copy, PartialEq, Eq, Structural, Debug)]
pub enum Phase {
    Startup,
    Update,
}

/// How one callback invocation went.
#[derive(Clone, Copy, PartialEq, Eq, Structural, Debug)]
pub enum CallOutcome {
    Clean,
    NonFatal,
    Fatal,
}

/// A fault raised by a callback. A fatal fault stops the scheduler; a
/// non-fatal one is reported through the error channel and the tick goes on.
pub struct Fault {
    pub fatal: bool,
    pub message: String,
}

/// The stop signal handed to callbacks: it can be raised, never lowered, and
/// the scheduler reads it at tick boundaries only.
pub struct Control {
    stop: bool,
}

impl Control {
    /// Is a stop pending?
    pub closed spec fn stop_state(self) -> bool {
        self.stop
    }

    /// Is a stop pending?
    pub fn stop_requested(&self) -> (r: bool)
        ensures
            r == self.stop_state(),
    {
        self.stop
    }

    /// Requests a stop; idempotent. The current tick still completes.
    pub fn request_stop(&mut self)
        ensures
            final(self).stop_state(),
    {
        self.stop = true;
    }
}

/// A callback: user code that the scheduler runs with exclusive access to the
/// world for the duration of the call. An implementation may mutate the world
/// freely and may request a stop; the scheduler assumes nothing about it.
pub trait System<C> {
    fn run(&self, world: &mut World<C>, control: &mut Control) -> Result<(), Fault>;
}

/// One callback invocation as a run records it.
#[derive(Clone, Copy, PartialEq, Eq, Structural, Debug)]
pub struct Event {
    pub phase: Phase,
    /// 0 during the startup phase; the 1-based tick number afterwards.
    pub tick: usize,
    /// The callback's registration position within its phase.
    pub index: usize,
    pub outcome: CallOutcome,
    /// Whether a stop was pending right after this callback returned.
    pub stop_after: bool,
}

/// Structural well-formedness of one recorded event: the phase matches the
/// tick number, and the index points at a registered callback.
pub open spec fn event_wf(ev: Event, n_s: int, n_u: int) -> bool {
    &&& (ev.phase == Phase::Startup <==> ev.tick == 0)
    &&& (ev.tick == 0 ==> (ev.index as int) < n_s)
    &&& (ev.tick > 0 ==> (ev.index as int) < n_u)
}

/// The number of registered callbacks in the phase `ev` belongs to.
pub open spec fn group_size(ev: Event, n_s: int, n_u: int) -> int {
    if ev.tick == 0 {
        n_s
    } else {
        n_u
    }
}

/// What may stand between two adjacent recorded events: the earlier one was
/// not fatal, a pending stop never clears, and either the same phase goes on
/// with the next registered callback, or the next tick begins — which it may
/// only directly after a completed phase whose end saw no pending stop.
pub open spec fn pair_ok(p: Event, q: Event, n_s: int, n_u: int) -> bool {
    &&& p.outcome != CallOutcome::Fatal
    &&& (p.stop_after ==> q.stop_after)
    &&& if q.tick == p.tick {
        q.index == p.index + 1
    } else {
        &&& q.tick == p.tick + 1
        &&& q.index == 0
        &&& p.index == group_size(p, n_s, n_u) - 1
        &&& !p.stop_after
    }
}

/// Structural well-formedness of a whole trace for `n_s` registered startup
/// and `n_u` registered update callbacks, where `init_stop` says whether a
/// stop was already pending when the run began.
pub open spec fn trace_wf(es: Seq<Event>, n_s: int, n_u: int, init_stop: bool) -> bool {
    &&& forall|i: int| 0 <= i < es.len() ==> event_wf(#[trigger] es[i], n_s, n_u)
    &&& forall|i: int| 0 <= i < es.len() - 1 ==> pair_ok(#[trigger] es[i], es[i + 1], n_s, n_u)
    &&& (es.len() > 0 ==> {
        &&& es[0].index == 0
        &&& es[0].tick as int == (if n_s > 0 { 0int } else { 1int })
        &&& (init_stop ==> es[0].stop_after)
        &&& !(n_s == 0 && init_stop)
    })
}

/// A complete run's trace: well-formed, and the run neither quit early nor
/// went on past a fatal fault, a pending stop, the tick bound, or an empty
/// update registry. `ticks` is the number of ticks the run began.
pub open spec fn trace_complete(
    es: Seq<Event>,
    n_s: int,
    n_u: int,
    max_ticks: int,
    ticks: int,
    init_stop: bool,
) -> bool {
    &&& trace_wf(es, n_s, n_u, init_stop)
    &&& 0 <= ticks <= max_ticks
    &&& if es.len() == 0 {
        n_s == 0 && (n_u == 0 || max_ticks == 0 || init_stop) && ticks == 0
    } else {
        let last = es[es.len() - 1];
        &&& ticks == last.tick
        &&& (last.outcome == CallOutcome::Fatal || (last.index == group_size(last, n_s, n_u) - 1
            && (last.stop_after || n_u == 0 || last.tick as int == max_ticks)))
    }
}

/// How many events of `es` carry outcome `oc`.
pub open spec fn count_outcome(es: Seq<Event>, oc: CallOutcome) -> nat
    decreases es.len(),
{
    if es.len() == 0 {
        0
    } else {
        count_outcome(es.drop_last(), oc) + if es.last().outcome == oc {
            1nat
        } else {
            0nat
        }
    }
}

proof fn lemma_count_outcome_push(es: Seq<Event>, ev: Event, oc: CallOutcome)
    ensures
        count_outcome(es.push(ev), oc) == count_outcome(es, oc) + if ev.outcome == oc {
            1nat
        } else {
            0nat
        },
{
    assert(es.push(ev).drop_last() =~= es);
    assert(es.push(ev).last() == ev);
}

/// Appending one event keeps a trace well-formed, provided the new event is
/// well-formed and stands correctly after the previous last event.
proof fn lemma_trace_wf_push(es: Seq<Event>, ev: Event, n_s: int, n_u: int, init_stop: bool)
    requires
        trace_wf(es, n_s, n_u, init_stop),
        event_wf(ev, n_s, n_u),
        es.len() == 0 ==> ev.index == 0 && ev.tick as int == (if n_s > 0 {
            0int
        } else {
            1int
        }) && (init_stop ==> ev.stop_after) && !(n_s == 0 && init_stop),
        es.len() > 0 ==> pair_ok(es.last(), ev, n_s, n_u),
    ensures
        trace_wf(es.push(ev), n_s, n_u, init_stop),
{
    let ext = es.push(ev);
    assert forall|i: int| 0 <= i < ext.len() implies event_wf(#[trigger] ext[i], n_s, n_u) by {
        if i < es.len() {
            assert(ext[i] == es[i]);
        } else {
            assert(ext[i] == ev);
        }
    }
    assert forall|i: int| 0 <= i < ext.len() - 1 implies pair_ok(
        #[trigger] ext[i],
        ext[i + 1],
        n_s,
        n_u,
    ) by {
        if i < es.len() - 1 {
            assert(ext[i] == es[i]);
            assert(ext[i + 1] == es[i + 1]);
            assert(pair_ok(es[i], es[i + 1], n_s, n_u));
        } else {
            assert(ext[i] == es.last());
            assert(ext[i + 1] == ev);
        }
    }
    if es.len() > 0 {
        assert(ext[0] == es[0]);
    }
}

/// The scheduler's lifecycle. Registration is allowed only while configuring;
/// `Stopped` is terminal and the scheduler is not reusable after it.
#[derive(Clone, Copy, PartialEq, Eq, Structural, Debug)]
pub enum SchedState {
    Configuring,
    StartupRunning,
    UpdateLooping,
    Stopped,
}

/// Misuse of the scheduler's lifecycle: registering or running outside the
/// configuring state. Terminal for the caller.
#[derive(Clone, Copy, PartialEq, Eq, Structural, Debug)]
pub enum SchedError {
    NotConfiguring,
}

impl SchedError {
    /// A one-line description, for error reporting by callers.
    pub fn message(&self) -> (r: String)
        ensures
            r@.len() > 0,
    {
        let r = String::new().concat(
            "scheduler misuse: registration and run are allowed only before the run begins",
        );
        proof {
            reveal_strlit(
                "scheduler misuse: registration and run are allowed only before the run begins",
            );
        }
        r
    }
}

/// What one run did: every callback invocation in order, the number of ticks
/// begun, the message of the fatal fault if one ended the run, and the
/// non-fatal fault messages in order of occurrence.
pub struct RunReport {
    pub events: Vec<Event>,
    pub ticks: usize,
    pub fatal: Option<String>,
    pub errors: Vec<String>,
}

/// The ordered runner of startup and update callbacks.
pub struct Scheduler<S> {
    startup: Vec<S>,
    update: Vec<S>,
    state: SchedState,
    stop: bool,
}

impl<S> Scheduler<S> {
    /// The registered startup callbacks, in registration order.
    pub closed spec fn startups(self) -> Seq<S> {
        self.startup@
    }

    /// The registered update callbacks, in registration order.
    pub closed spec fn updates(self) -> Seq<S> {
        self.update@
    }

    /// The lifecycle state.
    pub closed spec fn lifecycle(self) -> SchedState {
        self.state
    }

    /// Is a stop pending before the run begins?
    pub closed spec fn stop_pending(self) -> bool {
        self.stop
    }

    /// An empty scheduler, ready for registration.
    pub fn new() -> (s: Scheduler<S>)
        ensures
            s.startups() == Seq::<S>::empty(),
            s.updates() == Seq::<S>::empty(),
            s.lifecycle() == SchedState::Configuring,
            !s.stop_pending(),
    {
        Scheduler {
            startup: Vec::new(),
            update: Vec::new(),
            state: SchedState::Configuring,
            stop: false,
        }
    }

    /// The lifecycle state.
    pub fn state(&self) -> (r: SchedState)
        ensures
            r == self.lifecycle(),
    {
        self.state
    }

    /// Appends a startup callback. Allowed exactly while configuring.
    pub fn register_startup(&mut self, s: S) -> (r: Result<(), SchedError>)
        ensures
            match r {
                Ok(()) => {
                    &&& old(self).lifecycle() == SchedState::Configuring
                    &&& final(self).startups() == old(self).startups().push(s)
                    &&& final(self).updates() == old(self).updates()
                    &&& final(self).lifecycle() == old(self).lifecycle()
                    &&& final(self).stop_pending() == old(self).stop_pending()
                },
                Err(err) => {
                    &&& err == SchedError::NotConfiguring
                    &&& old(self).lifecycle() != SchedState::Configuring
                    &&& *final(self) == *old(self)
                },
            },
    {
        if self.state == SchedState::Configuring {
            self.startup.push(s);
            Ok(())
        } else {
            Err(SchedError::NotConfiguring)
        }
    }

    /// Appends an update callback. Allowed exactly while configuring.
    pub fn register_update(&mut self, s: S) -> (r: Result<(), SchedError>)
        ensures
            match r {
                Ok(()) => {
                    &&& old(self).lifecycle() == SchedState::Configuring
                    &&& final(self).updates() == old(self).updates().push(s)
                    &&& final(self).startups() == old(self).startups()
                    &&& final(self).lifecycle() == old(self).lifecycle()
                    &&& final(self).stop_pending() == old(self).stop_pending()
                },
                Err(err) => {
                    &&& err == SchedError::NotConfiguring
                    &&& old(self).lifecycle() != SchedState::Configuring
                    &&& *final(self) == *old(self)
                },
            },
    {
        if self.state == SchedState::Configuring {
            self.update.push(s);
            Ok(())
        } else {
            Err(SchedError::NotConfiguring)
        }
    }

    /// Requests a stop ahead of the run; idempotent. The run loop reads the
    /// flag at tick boundaries, never mid-tick.
    pub fn request_stop(&mut self)
        ensures
            final(self).stop_pending(),
            final(self).startups() == old(self).startups(),
            final(self).updates() == old(self).updates(),
            final(self).lifecycle() == old(self).lifecycle(),
    {
        self.stop = true;
    }

    /// Runs every startup callback once in registration order, then ticks:
    /// per tick, every update callback in registration order. The run ends at
    /// a fatal fault, at a stop observed at a tick boundary, after
    /// `max_ticks` ticks, or at once when no update callback is registered.
    /// Allowed exactly while configuring; afterwards the scheduler is stopped
    /// for good.
    pub fn run<C>(&mut self, world: &mut World<C>, max_ticks: usize) -> (r: Result<
        RunReport,
        SchedError,
    >) where S: System<C>
        ensures
            match r {
                Ok(report) => {
                    &&& old(self).lifecycle() == SchedState::Configuring
                    &&& final(self).lifecycle() == SchedState::Stopped
                    &&& final(self).startups() == old(self).startups()
                    &&& final(self).updates() == old(self).updates()
                    &&& trace_complete(
                        report.events@,
                        old(self).startups().len() as int,
                        old(self).updates().len() as int,
                        max_ticks as int,
                        report.ticks as int,
                        old(self).stop_pending(),
                    )
                    &&& (report.fatal is Some <==> report.events@.len() > 0
                        && report.events@.last().outcome == CallOutcome::Fatal)
                    &&& report.errors@.len() == count_outcome(report.events@, CallOutcome::NonFatal)
                },
                Err(err) => {
                    &&& err == SchedError::NotConfiguring
                    &&& old(self).lifecycle() != SchedState::Configuring
                    &&& *final(self) == *old(self)
                    &&& *final(world) == *old(world)
                },
            },
    {
        if !(self.state == SchedState::Configuring) {
            return Err(SchedError::NotConfiguring);
        }
        self.state = SchedState::StartupRunning;
        let ghost init_stop = old(self).stop_pending();
        let n_s = self.startup.len();
        let n_u = self.update.len();
        let mut events: Vec<Event> = Vec::new();
        let mut errors: Vec<String> = Vec::new();
        let mut fatal: Option<String> = None;
        let mut stop_latch = self.stop;
        let mut control = Control { stop: stop_latch };
        let mut i: usize = 0;
        while i < n_s && fatal.is_none()
            invariant
                i <= n_s,
                n_s == self.startup@.len(),
                n_u == self.update@.len(),
                self.startup@ == old(self).startups(),
                self.update@ == old(self).updates(),
                init_stop == old(self).stop_pending(),
                events@.len() == i as int,
                forall|j: int|
                    0 <= j < events@.len() ==> (#[trigger] events@[j]).tick == 0
                        && events@[j].index == j && events@[j].phase == Phase::Startup,
                trace_wf(events@, n_s as int, n_u as int, init_stop),
                init_stop ==> stop_latch,
                events@.len() == 0 ==> stop_latch == init_stop,
                events@.len() > 0 ==> events@.last().stop_after == stop_latch,
                fatal is None ==> forall|j: int|
                    0 <= j < events@.len() ==> (#[trigger] events@[j]).outcome
                        != CallOutcome::Fatal,
                fatal is Some ==> events@.len() > 0 && events@.last().outcome
                    == CallOutcome::Fatal,
                errors@.len() == count_outcome(events@, CallOutcome::NonFatal),
            decreases n_s - i,
        {
            let outcome = self.startup[i].run(world, &mut control);
            if control.stop_requested() {
                stop_latch = true;
            }
            control = Control { stop: stop_latch };
            let oc: CallOutcome;
            match outcome {
                Ok(()) => {
                    oc = CallOutcome::Clean;
                },
                Err(f) => {
                    if f.fatal {
                        fatal = Some(f.message);
                        oc = CallOutcome::Fatal;
                    } else {
                        errors.push(f.message);
                        oc = CallOutcome::NonFatal;
                    }
                },
            }
            let ev = Event {
                phase: Phase::Startup,
                tick: 0,
                index: i,
                outcome: oc,
                stop_after: stop_latch,
            };
            proof {
                lemma_count_outcome_push(events@, ev, CallOutcome::NonFatal);
                lemma_trace_wf_push(events@, ev, n_s as int, n_u as int, init_stop);
            }
            events.push(ev);
            i = i + 1;
        }
        self.state = SchedState::UpdateLooping;
        let mut ticks: usize = 0;
        while fatal.is_none() && ticks < max_ticks && n_u > 0 && !stop_latch
            invariant
                n_s == self.startup@.len(),
                n_u == self.update@.len(),
                self.startup@ == old(self).startups(),
                self.update@ == old(self).updates(),
                init_stop == old(self).stop_pending(),
                ticks <= max_ticks,
                trace_wf(events@, n_s as int, n_u as int, init_stop),
                init_stop ==> stop_latch,
                events@.len() == 0 ==> (stop_latch == init_stop && ticks == 0 && n_s == 0),
                events@.len() > 0 ==> events@.last().stop_after == stop_latch
                    && events@.last().tick == ticks,
                fatal is None && events@.len() > 0 ==> events@.last().index as int == group_size(
                    events@.last(),
                    n_s as int,
                    n_u as int,
                ) - 1 && events@.last().outcome != CallOutcome::Fatal,
                fatal is Some ==> events@.len() > 0 && events@.last().outcome
                    == CallOutcome::Fatal,
                errors@.len() == count_outcome(events@, CallOutcome::NonFatal),
            decreases max_ticks - ticks,
        {
            ticks = ticks + 1;
            let mut j: usize = 0;
            while j < n_u && fatal.is_none()
                invariant
                    n_s == self.startup@.len(),
                    n_u == self.update@.len(),
                    n_u > 0,
                    self.startup@ == old(self).startups(),
                    self.update@ == old(self).updates(),
                    init_stop == old(self).stop_pending(),
                    j <= n_u,
                    1 <= ticks <= max_ticks,
                    trace_wf(events@, n_s as int, n_u as int, init_stop),
                    init_stop ==> stop_latch,
                    j == 0 && events@.len() == 0 ==> (n_s == 0 && ticks == 1 && stop_latch
                        == init_stop && !stop_latch),
                    j == 0 && events@.len() > 0 ==> (events@.last().tick as int == ticks - 1
                        && events@.last().index as int == group_size(
                        events@.last(),
                        n_s as int,
                        n_u as int,
                    ) - 1 && events@.last().outcome != CallOutcome::Fatal
                        && !events@.last().stop_after && events@.last().stop_after == stop_latch),
                    j > 0 ==> (events@.len() > 0 && events@.last().tick == ticks
                        && events@.last().index as int == j - 1 && events@.last().stop_after
                        == stop_latch),
                    j > 0 && fatal is None ==> events@.last().outcome != CallOutcome::Fatal,
                    fatal is Some ==> (events@.len() > 0 && events@.last().outcome
                        == CallOutcome::Fatal && events@.last().tick == ticks && j > 0),
                    errors@.len() == count_outcome(events@, CallOutcome::NonFatal),
                decreases n_u - j,
            {
                let outcome = self.update[j].run(world, &mut control);
                if control.stop_requested() {
                    stop_latch = true;
                }
                control = Control { stop: stop_latch };
                let oc: CallOutcome;
                match outcome {
                    Ok(()) => {
                        oc = CallOutcome::Clean;
                    },
                    Err(f) => {
                        if f.fatal {
                            fatal = Some(f.message);
                            oc = CallOutcome::Fatal;
                        } else {
                            errors.push(f.message);
                            oc = CallOutcome::NonFatal;
                        }
                    },
                }
                let ev = Event {
                    phase: Phase::Update,
                    tick: ticks,
                    index: j,
                    outcome: oc,
                    stop_after: stop_latch,
                };
                proof {
                    lemma_count_outcome_push(events@, ev, CallOutcome::NonFatal);
                    lemma_trace_wf_push(events@, ev, n_s as int, n_u as int, init_stop);
                }
                events.push(ev);
                j = j + 1;
            }
        }
        self.state = SchedState::Stopped;
        let report = RunReport { events, ticks, fatal, errors };
        Ok(report)
    }
}

/// Law: recorded tick numbers never decrease along a trace.
pub proof fn lemma_ticks_monotone(
    es: Seq<Event>,
    n_s: int,
    n_u: int,
    init_stop: bool,
    i: int,
    j: int,
)
    requires
        trace_wf(es, n_s, n_u, init_stop),
        0 <= i <= j < es.len(),
    ensures
        es[i].tick <= es[j].tick,
    decreases j - i,
{
    if i < j {
        lemma_ticks_monotone(es, n_s, n_u, init_stop, i, j - 1);
        assert(pair_ok(es[j - 1], es[j], n_s, n_u));
    }
}

/// Law (startup precedes updates): no startup callback runs once any update
/// callback has run — every event before a startup event is a startup event.
pub proof fn lemma_startup_before_update(
    es: Seq<Event>,
    n_s: int,
    n_u: int,
    init_stop: bool,
    i: int,
    j: int,
)
    requires
        trace_wf(es, n_s, n_u, init_stop),
        0 <= i <= j < es.len(),
        es[j].phase == Phase::Startup,
    ensures
        es[i].phase == Phase::Startup,
{
    lemma_ticks_monotone(es, n_s, n_u, init_stop, i, j);
    assert(event_wf(es[i], n_s, n_u));
    assert(event_wf(es[j], n_s, n_u));
}

/// Law (registration order): within one phase — the startup pass or a single
/// tick — callbacks run in registration order, each exactly once: positions
/// within the trace and registration indices advance in lockstep.
pub proof fn lemma_registration_order(
    es: Seq<Event>,
    n_s: int,
    n_u: int,
    init_stop: bool,
    i: int,
    j: int,
)
    requires
        trace_wf(es, n_s, n_u, init_stop),
        0 <= i <= j < es.len(),
        es[i].tick == es[j].tick,
    ensures
        es[j].index - es[i].index == j - i,
    decreases j - i,
{
    if i < j {
        lemma_ticks_monotone(es, n_s, n_u, init_stop, i, j - 1);
        lemma_ticks_monotone(es, n_s, n_u, init_stop, j - 1, j);
        assert(pair_ok(es[j - 1], es[j], n_s, n_u));
        lemma_registration_order(es, n_s, n_u, init_stop, i, j - 1);
    }
}

/// Law: a stop once pending stays pending for the rest of the run.
pub proof fn lemma_stop_monotone(
    es: Seq<Event>,
    n_s: int,
    n_u: int,
    init_stop: bool,
    i: int,
    j: int,
)
    requires
        trace_wf(es, n_s, n_u, init_stop),
        0 <= i <= j < es.len(),
        es[i].stop_after,
    ensures
        es[j].stop_after,
    decreases j - i,
{
    if i < j {
        lemma_stop_monotone(es, n_s, n_u, init_stop, i, j - 1);
        assert(pair_ok(es[j - 1], es[j], n_s, n_u));
    }
}

/// Law (stop at tick boundaries): once a stop is pending after some callback,
/// every later event still belongs to that same tick — the tick in which the
/// stop was requested completes its remaining callbacks, and no further tick
/// ever begins.
pub proof fn lemma_stop_ends_run(
    es: Seq<Event>,
    n_s: int,
    n_u: int,
    init_stop: bool,
    i: int,
    j: int,
)
    requires
        trace_wf(es, n_s, n_u, init_stop),
        0 <= i <= j < es.len(),
        es[i].stop_after,
    ensures
        es[j].tick == es[i].tick,
    decreases j - i,
{
    if i < j {
        lemma_stop_ends_run(es, n_s, n_u, init_stop, i, j - 1);
        lemma_stop_monotone(es, n_s, n_u, init_stop, i, j - 1);
        assert(pair_ok(es[j - 1], es[j], n_s, n_u));
    }
}

/// Law: with no callbacks registered at all, a run records no events and
/// begins no tick.
pub proof fn lemma_no_callbacks_no_ticks(
    es: Seq<Event>,
    max_ticks: int,
    ticks: int,
    init_stop: bool,
)
    requires
        trace_complete(es, 0, 0, max_ticks, ticks, init_stop),
    ensures
        es.len() == 0,
        ticks == 0,
{
    if es.len() > 0 {
        assert(event_wf(es[0], 0, 0));
    }
}

/// Law (the update loop advances): with at least one update callback, a
/// positive tick bound, no fault and no stop request anywhere, a run performs
/// exactly the bounded number of ticks — on an empty world as much as on a
/// populated one.
pub proof fn lemma_clean_run_advances(
    es: Seq<Event>,
    n_s: int,
    n_u: int,
    max_ticks: int,
    ticks: int,
)
    requires
        trace_complete(es, n_s, n_u, max_ticks, ticks, false),
        n_u > 0,
        max_ticks > 0,
        forall|i: int|
            0 <= i < es.len() ==> (#[trigger] es[i]).outcome != CallOutcome::Fatal
                && !es[i].stop_after,
    ensures
        ticks == max_ticks,
{
    assert(es.len() > 0);
    assert(es[es.len() - 1] == es.last());
}

/// Law (a non-fatal fault does not stop the phase): a callback that raised a
/// non-fatal fault mid-phase is directly followed by the next registered
/// callback of the same phase and tick.
pub proof fn lemma_non_fatal_continues(
    es: Seq<Event>,
    n_s: int,
    n_u: int,
    max_ticks: int,
    ticks: int,
    init_stop: bool,
    i: int,
)
    requires
        trace_complete(es, n_s, n_u, max_ticks, ticks, init_stop),
        0 <= i < es.len(),
        es[i].outcome == CallOutcome::NonFatal,
        es[i].index + 1 < group_size(es[i], n_s, n_u),
    ensures
        i + 1 < es.len(),
        es[i + 1].tick == es[i].tick,
        es[i + 1].index == es[i].index + 1,
{
    assert(es[es.len() - 1] == es.last());
    if i == es.len() - 1 {
        assert(false);
    } else {
        assert(pair_ok(es[i], es[i + 1], n_s, n_u));
    }
}

} // verus!
