use vstd::prelude::*;

verus! {

/// Where the service stands in its life.
#[derive(Clone, Copy, Debug, PartialEq, Eq, Structural)]
pub enum Phase {
    /// New requests are taken.
    Accepting,
    /// Shutdown has begun: no new request is taken, those in flight finish.
    Draining,
    /// Shutdown is over: nothing is in flight and nothing more is taken.
    Stopped,
}

/// Whether a request that arrived is served.
#[derive(Clone, Copy, Debug, PartialEq, Eq, Structural)]
pub enum Admission {
    Admitted,
    Refused,
}

/// A misuse of the single-use shutdown trigger.
#[derive(Clone, Copy, Debug, PartialEq, Eq, Structural)]
pub enum ShutdownError {
    /// The trigger has been fired before.
    AlreadyFired,
    /// The service had already stopped.
    ServerStopped,
}

/// What happens to the service.
#[derive(Clone, Copy, Debug, PartialEq, Eq, Structural)]
pub enum Event {
    /// A request arrives.
    Arrive,
    /// A request in flight has been answered.
    Finish,
    /// An outside signal source asks for shutdown (any number of times).
    Signal,
    /// The single-use trigger is fired.
    Fire,
}

/// The state of a [`Coordinator`], as mathematics.
pub struct CoordinatorState {
    pub phase: Phase,
    pub in_flight: nat,
    pub fired: bool,
}

/// The lifecycle invariant: the service stops exactly when draining has
/// emptied it, and once the trigger fired it never takes work again.
pub open spec fn state_wf(s: CoordinatorState) -> bool {
    &&& s.in_flight <= u64::MAX
    &&& (s.phase == Phase::Draining ==> s.in_flight > 0)
    &&& (s.phase == Phase::Stopped ==> s.in_flight == 0)
    &&& (s.fired ==> s.phase != Phase::Accepting)
}

pub open spec fn initial_state() -> CoordinatorState {
    CoordinatorState { phase: Phase::Accepting, in_flight: 0, fired: false }
}

/// A request arrives: taken only while accepting (and while the count of
/// requests in flight can grow).
pub open spec fn arrive_next(s: CoordinatorState) -> (CoordinatorState, Admission) {
    if s.phase == Phase::Accepting && s.in_flight < u64::MAX {
        (CoordinatorState { in_flight: s.in_flight + 1, ..s }, Admission::Admitted)
    } else {
        (s, Admission::Refused)
    }
}

/// A request finishes; the last one to finish while draining stops the
/// service. With nothing in flight there is nothing to finish.
pub open spec fn finish_next(s: CoordinatorState) -> CoordinatorState {
    if s.in_flight == 0 {
        s
    } else if s.phase == Phase::Draining && s.in_flight == 1 {
        CoordinatorState { phase: Phase::Stopped, in_flight: 0, ..s }
    } else {
        CoordinatorState { in_flight: (s.in_flight - 1) as nat, ..s }
    }
}

/// Shutdown begins: an accepting service drains, or stops at once when
/// idle; one that already drains or stopped is left as it is.
pub open spec fn drain_next(s: CoordinatorState) -> CoordinatorState {
    if s.phase != Phase::Accepting {
        s
    } else if s.in_flight == 0 {
        CoordinatorState { phase: Phase::Stopped, ..s }
    } else {
        CoordinatorState { phase: Phase::Draining, ..s }
    }
}

/// The trigger fires: an error if it fired before or the service stopped,
/// else shutdown begins.
pub open spec fn fire_next(s: CoordinatorState) -> (CoordinatorState, Result<(), ShutdownError>) {
    if s.fired {
        (s, Err(ShutdownError::AlreadyFired))
    } else if s.phase == Phase::Stopped {
        (s, Err(ShutdownError::ServerStopped))
    } else {
        (CoordinatorState { fired: true, ..drain_next(s) }, Ok(()))
    }
}

/// The service is gone (its driver was dropped): it takes nothing more and
/// nothing of it is in flight any longer. The trigger keeps its state.
pub open spec fn stop_next(s: CoordinatorState) -> CoordinatorState {
    CoordinatorState { phase: Phase::Stopped, in_flight: 0, ..s }
}

pub open spec fn step(s: CoordinatorState, e: Event) -> CoordinatorState {
    match e {
        Event::Arrive => arrive_next(s).0,
        Event::Finish => finish_next(s),
        Event::Signal => drain_next(s),
        Event::Fire => fire_next(s).0,
    }
}

/// The state after a run of events.
pub open spec fn run(s: CoordinatorState, events: Seq<Event>) -> CoordinatorState
    decreases events.len(),
{
    if events.len() == 0 {
        s
    } else {
        run(step(s, events[0]), events.drop_first())
    }
}

/// How many requests finish in a run of events.
pub open spec fn finishes(events: Seq<Event>) -> nat
    decreases events.len(),
{
    if events.len() == 0 {
        0
    } else {
        (if events[0] == Event::Finish { 1nat } else { 0nat }) + finishes(events.drop_first())
    }
}

/// Every event keeps the lifecycle invariant.
pub proof fn lemma_step_wf(s: CoordinatorState, e: Event)
    requires
        state_wf(s),
    ensures
        state_wf(step(s, e)),
{
}

/// Every run of events keeps the lifecycle invariant.
pub proof fn lemma_run_wf(s: CoordinatorState, events: Seq<Event>)
    requires
        state_wf(s),
    ensures
        state_wf(run(s, events)),
    decreases events.len(),
{
    if events.len() > 0 {
        lemma_run_wf(step(s, events[0]), events.drop_first());
    }
}

/// Once shutdown has begun, whatever happens next, no request is ever taken
/// again; only finishing requests lowers the count in flight, and the
/// service stops only after every request that was in flight has finished.
pub proof fn lemma_draining_takes_nothing(s: CoordinatorState, events: Seq<Event>)
    requires
        state_wf(s),
        s.phase != Phase::Accepting,
    ensures
        run(s, events).phase != Phase::Accepting,
        arrive_next(run(s, events)).1 == Admission::Refused,
        run(s, events).in_flight == if finishes(events) >= s.in_flight {
            0
        } else {
            (s.in_flight - finishes(events)) as nat
        },
        run(s, events).phase == Phase::Stopped ==> finishes(events) >= s.in_flight,
    decreases events.len(),
{
    if events.len() > 0 {
        lemma_draining_takes_nothing(step(s, events[0]), events.drop_first());
    }
}

/// Requests do not wait for one another: while the service accepts, each
/// of two requests that arrive together is admitted at once, with the first
/// still in flight.
pub proof fn lemma_arrivals_admitted_together(s: CoordinatorState)
    requires
        state_wf(s),
        s.phase == Phase::Accepting,
        s.in_flight + 2 <= u64::MAX,
    ensures
        arrive_next(s).1 == Admission::Admitted,
        arrive_next(arrive_next(s).0).1 == Admission::Admitted,
        arrive_next(arrive_next(s).0).0.in_flight == s.in_flight + 2,
{
}

/// The trigger is single-use: after it fired, whatever happens next, firing
/// it again is refused with `AlreadyFired` and changes nothing.
pub proof fn lemma_trigger_single_use(s: CoordinatorState, events: Seq<Event>)
    requires
        state_wf(s),
        fire_next(s).1 is Ok,
    ensures
        fire_next(run(fire_next(s).0, events)).1 == Err::<(), ShutdownError>(
            ShutdownError::AlreadyFired,
        ),
        fire_next(run(fire_next(s).0, events)).0 == run(fire_next(s).0, events),
{
    lemma_fired_stays(fire_next(s).0, events);
}

proof fn lemma_fired_stays(s: CoordinatorState, events: Seq<Event>)
    requires
        s.fired,
    ensures
        run(s, events).fired,
    decreases events.len(),
{
    if events.len() > 0 {
        lemma_fired_stays(step(s, events[0]), events.drop_first());
    }
}

/// Firing the trigger on a service that has stopped is refused.
pub proof fn lemma_fire_after_stop(s: CoordinatorState)
    requires
        s.phase == Phase::Stopped,
    ensures
        fire_next(s).1 is Err,
        fire_next(s).0 == s,
{
}

/// Outside signals are idempotent: a second one changes nothing and is no
/// error.
pub proof fn lemma_signal_idempotent(s: CoordinatorState)
    ensures
        drain_next(drain_next(s)) == drain_next(s),
{
}

/// The lifecycle of a running service: which requests it takes, when it
/// stops, and its single-use shutdown trigger.
pub struct Coordinator {
    phase: Phase,
    in_flight: u64,
    fired: bool,
}

impl View for Coordinator {
    type V = CoordinatorState;

    closed spec fn view(&self) -> CoordinatorState {
        CoordinatorState { phase: self.phase, in_flight: self.in_flight as nat, fired: self.fired }
    }
}

impl Coordinator {
    pub open spec fn wf(&self) -> bool {
        state_wf(self@)
    }

    /// A service that accepts, with nothing in flight.
    pub fn new() -> (r: Coordinator)
        ensures
            r@ == initial_state(),
            r.wf(),
    {
        Coordinator { phase: Phase::Accepting, in_flight: 0, fired: false }
    }

    pub fn phase(&self) -> (r: Phase)
        ensures
            r == self@.phase,
    {
        self.phase
    }

    pub fn in_flight(&self) -> (r: u64)
        ensures
            r as nat == self@.in_flight,
    {
        self.in_flight
    }

    /// Whether the service has stopped.
    pub fn is_stopped(&self) -> (r: bool)
        ensures
            r == (self@.phase == Phase::Stopped),
    {
        match self.phase {
            Phase::Stopped => true,
            _ => false,
        }
    }

    /// A request arrives; it is admitted only while the service accepts.
    pub fn arrive(&mut self) -> (r: Admission)
        requires
            old(self).wf(),
        ensures
            final(self).wf(),
            (final(self)@, r) == arrive_next(old(self)@),
    {
        match self.phase {
            Phase::Accepting => {
                if self.in_flight < u64::MAX {
                    self.in_flight = self.in_flight + 1;
                    Admission::Admitted
                } else {
                    Admission::Refused
                }
            },
            _ => Admission::Refused,
        }
    }

    /// A request that was admitted has been answered.
    pub fn finish(&mut self)
        requires
            old(self).wf(),
        ensures
            final(self).wf(),
            final(self)@ == finish_next(old(self)@),
    {
        if self.in_flight > 0 {
            self.in_flight = self.in_flight - 1;
            if self.in_flight == 0 {
                match self.phase {
                    Phase::Draining => {
                        self.phase = Phase::Stopped;
                    },
                    _ => {},
                }
            }
        }
    }

    fn begin_drain(&mut self)
        requires
            old(self).wf(),
        ensures
            final(self)@ == drain_next(old(self)@),
    {
        match self.phase {
            Phase::Accepting => {
                if self.in_flight == 0 {
                    self.phase = Phase::Stopped;
                } else {
                    self.phase = Phase::Draining;
                }
            },
            _ => {},
        }
    }

    /// An outside signal source asks for shutdown. Any number of such
    /// requests may come: the first begins shutdown, the others change
    /// nothing.
    pub fn signal(&mut self)
        requires
            old(self).wf(),
        ensures
            final(self).wf(),
            final(self)@ == drain_next(old(self)@),
    {
        self.begin_drain();
    }

    /// Records that the service is gone, whatever its phase: later firings
    /// of the trigger are then refused.
    pub fn stop(&mut self)
        requires
            old(self).wf(),
        ensures
            final(self).wf(),
            final(self)@ == stop_next(old(self)@),
    {
        self.phase = Phase::Stopped;
        self.in_flight = 0;
    }

    /// Fires the single-use trigger: shutdown begins, or the misuse is
    /// reported and nothing changes.
    pub fn fire(&mut self) -> (r: Result<(), ShutdownError>)
        requires
            old(self).wf(),
        ensures
            final(self).wf(),
            (final(self)@, r) == fire_next(old(self)@),
    {
        if self.fired {
            return Err(ShutdownError::AlreadyFired);
        }
        match self.phase {
            Phase::Stopped => Err(ShutdownError::ServerStopped),
            _ => {
                self.begin_drain();
                self.fired = true;
                Ok(())
            },
        }
    }
}

} // verus!
