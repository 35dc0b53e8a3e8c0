//! The application facade: one object composing a `World` and a `Scheduler`,
//! with a registration surface and a single blocking `run` entry point.

use vstd::prelude::*;
use crate::world::World;
use crate::world::Slot;
use crate::sched::CallOutcome;
use crate::sched::RunReport;
use crate::sched::SchedError;
use crate::sched::SchedState;
use crate::sched::Scheduler;
use crate::sched::System;
use crate::sched::count_outcome;
use crate::sched::trace_complete;

verus! {

/// The application: an owned world plus a scheduler over callbacks of one
/// user type `S`.
pub struct App<C, S> {
    pub world: World<C>,
    pub sched: Scheduler<S>,
}

impl<C, S> App<C, S> {
    /// An empty world and an empty scheduler, ready for registration.
    pub fn new() -> (a: App<C, S>)
        ensures
            a.world.rows() == Seq::<Slot<C>>::empty(),
            a.world.next_entity_id() == 0,
            a.sched.startups() == Seq::<S>::empty(),
            a.sched.updates() == Seq::<S>::empty(),
            a.sched.lifecycle() == SchedState::Configuring,
            !a.sched.stop_pending(),
    {
        App { world: World::new(), sched: Scheduler::new() }
    }

    /// Registers a startup callback. Allowed exactly while configuring;
    /// afterwards the attempt is a terminal error for the caller.
    pub fn add_startup(&mut self, s: S) -> (r: Result<(), SchedError>)
        ensures
            final(self).world == old(self).world,
            match r {
                Ok(()) => {
                    &&& old(self).sched.lifecycle() == SchedState::Configuring
                    &&& final(self).sched.startups() == old(self).sched.startups().push(s)
                    &&& final(self).sched.updates() == old(self).sched.updates()
                    &&& final(self).sched.lifecycle() == old(self).sched.lifecycle()
                    &&& final(self).sched.stop_pending() == old(self).sched.stop_pending()
                },
                Err(err) => {
                    &&& err == SchedError::NotConfiguring
                    &&& old(self).sched.lifecycle() != SchedState::Configuring
                    &&& *final(self) == *old(self)
                },
            },
    {
        self.sched.register_startup(s)
    }

    /// Registers an update callback. Allowed exactly while configuring;
    /// afterwards the attempt is a terminal error for the caller.
    pub fn add_update(&mut self, s: S) -> (r: Result<(), SchedError>)
        ensures
            final(self).world == old(self).world,
            match r {
                Ok(()) => {
                    &&& old(self).sched.lifecycle() == SchedState::Configuring
                    &&& final(self).sched.updates() == old(self).sched.updates().push(s)
                    &&& final(self).sched.startups() == old(self).sched.startups()
                    &&& final(self).sched.lifecycle() == old(self).sched.lifecycle()
                    &&& final(self).sched.stop_pending() == old(self).sched.stop_pending()
                },
                Err(err) => {
                    &&& err == SchedError::NotConfiguring
                    &&& old(self).sched.lifecycle() != SchedState::Configuring
                    &&& *final(self) == *old(self)
                },
            },
    {
        self.sched.register_update(s)
    }

    /// Requests a stop; idempotent. A run observes it at tick boundaries.
    pub fn request_stop(&mut self)
        ensures
            final(self).world == old(self).world,
            final(self).sched.stop_pending(),
            final(self).sched.startups() == old(self).sched.startups(),
            final(self).sched.updates() == old(self).sched.updates(),
            final(self).sched.lifecycle() == old(self).sched.lifecycle(),
    {
        self.sched.request_stop();
    }

    /// Hands the world to the scheduler and blocks until the scheduler stops:
    /// one startup pass, then up to `max_ticks` ticks. The returned report
    /// records every callback invocation; its trace is complete for the
    /// registered callbacks.
    pub fn run(&mut self, max_ticks: usize) -> (r: Result<RunReport, SchedError>) where
        S: System<C>,

        ensures
            match r {
                Ok(report) => {
                    &&& old(self).sched.lifecycle() == SchedState::Configuring
                    &&& final(self).sched.lifecycle() == SchedState::Stopped
                    &&& final(self).sched.startups() == old(self).sched.startups()
                    &&& final(self).sched.updates() == old(self).sched.updates()
                    &&& trace_complete(
                        report.events@,
                        old(self).sched.startups().len() as int,
                        old(self).sched.updates().len() as int,
                        max_ticks as int,
                        report.ticks as int,
                        old(self).sched.stop_pending(),
                    )
                    &&& (report.fatal is Some <==> report.events@.len() > 0
                        && report.events@.last().outcome == CallOutcome::Fatal)
                    &&& report.errors@.len() == count_outcome(report.events@, CallOutcome::NonFatal)
                },
                Err(err) => {
                    &&& err == SchedError::NotConfiguring
                    &&& old(self).sched.lifecycle() != SchedState::Configuring
                    &&& *final(self) == *old(self)
                },
            },
    {
        self.sched.run(&mut self.world, max_ticks)
    }
}

} // verus!
