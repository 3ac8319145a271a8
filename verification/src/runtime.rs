//! The engine behind the plugin, one step at a time. Who shares it between threads
//! holds a lock for each step and waits between two of them.
use crate::clock::Instant;
use crate::config::{default_config, Config};
use crate::engine::{Decision, Engine, Rejection};
use crate::error_mapping::{mapped, outcome, reports, RetryableError};
use crate::json::Json;
use crate::state::{
    attempted, begun, begun_inside, completed, initial, polled, reconfiguration, stopped, tally,
    State,
};
use vstd::prelude::*;

verus! {

/// How far an acquisition has come.
#[derive(Clone, Copy, Debug, PartialEq, Eq)]
pub enum Admission {
    /// It is decided.
    Settled(Result<(), Rejection>),
    /// To be resumed when something changed, at this time at the latest.
    Wait(Instant),
}

/// What a decision means to the caller.
pub open spec fn admission(decision: Decision) -> Admission {
    match decision {
        Decision::Admit => Admission::Settled(Ok(())),
        Decision::WaitUntil(wake) => Admission::Wait(wake),
        Decision::Reject(reason) => Admission::Settled(Err(reason)),
    }
}

fn admission_of(decision: Decision) -> (r: Admission)
    ensures
        r == admission(decision),
{
    match decision {
        Decision::Admit => Admission::Settled(Ok(())),
        Decision::WaitUntil(wake) => Admission::Wait(wake),
        Decision::Reject(reason) => Admission::Settled(Err(reason)),
    }
}

pub struct Runtime {
    engine: Engine,
}

impl View for Runtime {
    type V = State;

    closed spec fn view(&self) -> State {
        self.engine@
    }
}

impl Default for Runtime {
    fn default() -> (r: Self)
        ensures
            r.wf(),
            r@ == initial(default_config()),
    {
        Runtime { engine: Engine::new(Config::default()) }
    }
}

impl Runtime {
    /// What every runtime keeps.
    pub closed spec fn wf(&self) -> bool {
        self.engine.wf()
    }

    /// How a failure is retried, where the configuration says so.
    pub fn map_error(&self, status: u16, failure: &Json) -> (r: Option<RetryableError>)
        ensures
            outcome(r) == if self@.config.enabled && !self@.stopping {
                mapped(self@.config.error_mapping, status, failure@)
            } else {
                None
            },
    {
        self.engine.map_error(status, failure)
    }

    /// Registers a request.
    pub fn begin(&mut self, id: &str) -> (r: Result<(), Rejection>)
        requires
            old(self).wf(),
        ensures
            final(self).wf(),
            begun(old(self)@, id@) == (final(self)@, r),
    {
        self.engine.begin(id)
    }

    /// Registers a request inside another one.
    pub fn begin_child(&mut self, id: &str, parent: &str) -> (r: Result<(), Rejection>)
        requires
            old(self).wf(),
        ensures
            final(self).wf(),
            begun_inside(old(self)@, id@, parent@) == (final(self)@, r),
    {
        self.engine.begin_child(id, parent)
    }

    /// Starts an attempt on a credential. Whatever comes of it, others that wait
    /// are to look again: the slot of the attempt before it is free.
    pub fn acquire(&mut self, id: &str, credential: &str, now: Instant) -> (r: Admission)
        requires
            old(self).wf(),
            now.readable(),
        ensures
            final(self).wf(),
            ({
                let (next, decision) = attempted(old(self)@, id@, credential@, now);
                final(self)@ == next && r == admission(decision)
            }),
    {
        admission_of(self.engine.start_attempt(id, credential, now))
    }

    /// Looks again after a wait.
    pub fn resume(&mut self, id: &str, now: Instant) -> (r: Admission)
        requires
            old(self).wf(),
            now.readable(),
        ensures
            final(self).wf(),
            ({
                let (next, decision) = polled(old(self)@, id@, now);
                final(self)@ == next && r == admission(decision)
            }),
    {
        admission_of(self.engine.poll(id, now))
    }

    /// Ends a request, with all that is nested in it.
    pub fn complete(&mut self, id: &str)
        requires
            old(self).wf(),
        ensures
            final(self).wf(),
            final(self)@ == completed(old(self)@, id@),
    {
        self.engine.complete(id)
    }

    /// Takes over a configuration.
    pub fn configure(&mut self, config: Config, now: Instant) -> (r: Result<(), String>)
        requires
            old(self).wf(),
        ensures
            final(self).wf(),
            reconfiguration(old(self)@, config@, now).0 == final(self)@,
            reports(r, reconfiguration(old(self)@, config@, now).1),
    {
        self.engine.reconfigure(config, now)
    }

    /// Refuses new work from now on.
    pub fn stop(&mut self)
        requires
            old(self).wf(),
        ensures
            final(self).wf(),
            final(self)@ == stopped(old(self)@),
    {
        self.engine.stop()
    }

    /// The live requests, the running attempts and the waiting requests.
    pub fn counts(&self) -> (r: (usize, usize, usize))
        requires
            self.wf(),
        ensures
            (r.0 as int, r.1 as int, r.2 as int) == tally(self@),
    {
        self.engine.counts()
    }
}

/// What a decision means to the caller: an admission and a refusal settle the
/// acquisition, a wait is told with its time.
pub proof fn law_decisions_settle_or_wait(decision: Decision)
    ensures
        match admission(decision) {
            Admission::Settled(Ok(_)) => decision == Decision::Admit,
            Admission::Settled(Err(reason)) => decision == Decision::Reject(reason),
            Admission::Wait(wake) => decision == Decision::WaitUntil(wake),
        },
{
}

} // verus!
