//! The connection supervisor: which connections are taken, when new ones
//! are refused, and when serving ends.
//!
//! The supervisor is a state machine. Whoever runs the accept loop reports
//! each event to [`Supervisor::step`] and does what the returned action
//! says. The machine never waits and never touches a connection itself.

use std::time::Duration;
use vstd::prelude::*;

verus! {

/// `std::io::Error`, carried through as the error of a failed setup and
/// never looked into.
#[verifier::external_type_specification]
#[verifier::external_body]
pub struct ExIoError(std::io::Error);

/// Where the supervisor stands.
#[derive(Clone, Copy, Debug, PartialEq, Eq, Structural)]
pub enum Phase {
    /// Connections are accepted and served.
    Running,
    /// The shutdown signal has fired; the acceptor is being closed.
    ShuttingDown,
    /// No connection is accepted; those alive are given time to finish.
    Draining,
    /// No connection is alive; serving has ended.
    Stopped,
}

impl Phase {
    /// The place of the phase in the order in which the phases follow one
    /// another.
    pub open spec fn rank(self) -> int {
        match self {
            Phase::Running => 0,
            Phase::ShuttingDown => 1,
            Phase::Draining => 2,
            Phase::Stopped => 3,
        }
    }
}

/// What the accept loop reports.
#[derive(Clone, Copy, Debug, PartialEq, Eq, Structural)]
pub enum Event {
    /// The acceptor handed over a connection.
    Accepted,
    /// An attempt to accept failed.
    AcceptFailed,
    /// The shutdown signal fired.
    Shutdown,
    /// The acceptor has been closed, and the grace timer started if there
    /// is one.
    AcceptorClosed,
    /// The handling of a connection ended: it finished, it failed, or it
    /// was torn down.
    ConnectionClosed,
    /// The grace period is over.
    TimeoutElapsed,
}

/// What the accept loop is to do next.
#[derive(Clone, Copy, Debug, PartialEq, Eq)]
pub enum Action {
    /// Serve the connection in a unit of its own. A bounded unit ends as
    /// soon as the grace period is over, whatever it is doing.
    Serve { bounded: bool },
    /// Drop the connection: it is not taken.
    Refuse,
    /// Close the acceptor, start a timer for the grace period if one is
    /// given, and report [`Event::AcceptorClosed`].
    StopAccepting { timer: Option<Duration> },
    /// Tell every bounded unit that the grace period is over.
    Abort,
    /// Go on waiting for events.
    Wait,
    /// End serving with success: no connection is alive any more. This is
    /// said once, at the step that stops the supervisor.
    Return,
}

/// The mathematical value of a [`Supervisor`].
pub struct State {
    pub phase: Phase,
    /// The number of connections whose handling has begun and not ended.
    pub alive: nat,
    /// The grace period, if shutdown is bounded.
    pub timeout: Option<Duration>,
    /// The grace period is over.
    pub expired: bool,
}

impl State {
    /// The state in which serving begins.
    pub open spec fn start(timeout: Option<Duration>) -> State {
        State { phase: Phase::Running, alive: 0, timeout, expired: false }
    }

    /// What holds of every state that the machine reaches: it drains only
    /// while a connection is alive, it has stopped only when none is, and
    /// a grace period is over only where one was set and the shutdown
    /// signal has fired.
    pub open spec fn inv(self) -> bool {
        &&& self.phase is Draining ==> self.alive > 0
        &&& self.phase is Stopped ==> self.alive == 0
        &&& self.expired ==> self.timeout is Some && !(self.phase is Running)
    }

    /// One connection fewer is alive.
    pub open spec fn closed_one(self) -> State {
        State { alive: if self.alive > 0 { (self.alive - 1) as nat } else { 0 }, ..self }
    }

    /// The grace period ends now, for the first time.
    pub open spec fn expires(self) -> bool {
        self.timeout is Some && !self.expired
    }

    /// The state after `event`.
    pub open spec fn next(self, event: Event) -> State {
        match self.phase {
            Phase::Running => match event {
                Event::Accepted => if self.alive < usize::MAX {
                    State { alive: self.alive + 1, ..self }
                } else {
                    self
                },
                Event::ConnectionClosed => self.closed_one(),
                Event::Shutdown => State { phase: Phase::ShuttingDown, ..self },
                _ => self,
            },
            Phase::ShuttingDown => match event {
                Event::ConnectionClosed => self.closed_one(),
                Event::AcceptorClosed => if self.alive == 0 {
                    State { phase: Phase::Stopped, ..self }
                } else {
                    State { phase: Phase::Draining, ..self }
                },
                Event::TimeoutElapsed => if self.expires() {
                    State { expired: true, ..self }
                } else {
                    self
                },
                _ => self,
            },
            Phase::Draining => match event {
                Event::ConnectionClosed => if self.alive <= 1 {
                    State { phase: Phase::Stopped, alive: 0, ..self }
                } else {
                    self.closed_one()
                },
                Event::TimeoutElapsed => if self.expires() {
                    State { expired: true, ..self }
                } else {
                    self
                },
                _ => self,
            },
            Phase::Stopped => self,
        }
    }

    /// What is to be done about `event` in this state.
    pub open spec fn action(self, event: Event) -> Action {
        match self.phase {
            Phase::Running => match event {
                Event::Accepted => if self.alive < usize::MAX {
                    Action::Serve { bounded: self.timeout is Some }
                } else {
                    Action::Refuse
                },
                Event::Shutdown => Action::StopAccepting { timer: self.timeout },
                _ => Action::Wait,
            },
            Phase::ShuttingDown => match event {
                Event::Accepted => Action::Refuse,
                Event::AcceptorClosed => if self.alive == 0 {
                    Action::Return
                } else {
                    Action::Wait
                },
                Event::TimeoutElapsed => if self.expires() {
                    Action::Abort
                } else {
                    Action::Wait
                },
                _ => Action::Wait,
            },
            Phase::Draining => match event {
                Event::Accepted => Action::Refuse,
                Event::ConnectionClosed => if self.alive <= 1 {
                    Action::Return
                } else {
                    Action::Wait
                },
                Event::TimeoutElapsed => if self.expires() {
                    Action::Abort
                } else {
                    Action::Wait
                },
                _ => Action::Wait,
            },
            Phase::Stopped => match event {
                Event::Accepted => Action::Refuse,
                _ => Action::Wait,
            },
        }
    }

    /// The state after the events of `events`, in order.
    pub open spec fn after(self, events: Seq<Event>) -> State
        decreases events.len(),
    {
        if events.len() == 0 {
            self
        } else {
            self.next(events[0]).after(events.skip(1))
        }
    }
}

/// The number of connections that `events` reports as ended.
pub open spec fn closures(events: Seq<Event>) -> nat
    decreases events.len(),
{
    if events.len() == 0 {
        0
    } else {
        closures(events.skip(1)) + if events[0] is ConnectionClosed {
            1nat
        } else {
            0nat
        }
    }
}

/// The supervisor of the connections of one server.
#[derive(Debug)]
pub struct Supervisor {
    phase: Phase,
    alive: usize,
    timeout: Option<Duration>,
    expired: bool,
}

impl View for Supervisor {
    type V = State;

    closed spec fn view(&self) -> State {
        State {
            phase: self.phase,
            alive: self.alive as nat,
            timeout: self.timeout,
            expired: self.expired,
        }
    }
}

impl Supervisor {
    #[verifier::type_invariant]
    spec fn sound(self) -> bool {
        self@.inv()
    }

    /// A supervisor that is running, with no connection alive. With a
    /// timeout the shutdown is bounded by it; without one, connections are
    /// left to finish.
    pub fn new(timeout: Option<Duration>) -> (supervisor: Supervisor)
        ensures
            supervisor@ == State::start(timeout),
            supervisor@.inv(),
    {
        Supervisor { phase: Phase::Running, alive: 0, timeout, expired: false }
    }

    /// Takes note of `event` and says what to do about it.
    pub fn step(&mut self, event: Event) -> (action: Action)
        ensures
            final(self)@.inv(),
            final(self)@ == old(self)@.next(event),
            action == old(self)@.action(event),
    {
        proof {
            use_type_invariant(&*self);
        }
        let bounded = self.timeout.is_some();
        let expires = bounded && !self.expired;
        match self.phase {
            Phase::Running => match event {
                Event::Accepted => {
                    if self.alive < usize::MAX {
                        self.alive = self.alive + 1;
                        Action::Serve { bounded }
                    } else {
                        Action::Refuse
                    }
                },
                Event::ConnectionClosed => {
                    if self.alive > 0 {
                        self.alive = self.alive - 1;
                    }
                    Action::Wait
                },
                Event::Shutdown => {
                    self.phase = Phase::ShuttingDown;
                    Action::StopAccepting { timer: self.timeout }
                },
                _ => Action::Wait,
            },
            Phase::ShuttingDown => match event {
                Event::Accepted => Action::Refuse,
                Event::ConnectionClosed => {
                    if self.alive > 0 {
                        self.alive = self.alive - 1;
                    }
                    Action::Wait
                },
                Event::AcceptorClosed => {
                    if self.alive == 0 {
                        self.phase = Phase::Stopped;
                        Action::Return
                    } else {
                        self.phase = Phase::Draining;
                        Action::Wait
                    }
                },
                Event::TimeoutElapsed => {
                    if expires {
                        self.expired = true;
                        Action::Abort
                    } else {
                        Action::Wait
                    }
                },
                _ => Action::Wait,
            },
            Phase::Draining => match event {
                Event::Accepted => Action::Refuse,
                Event::ConnectionClosed => {
                    if self.alive <= 1 {
                        *self = Supervisor {
                            phase: Phase::Stopped,
                            alive: 0,
                            timeout: self.timeout,
                            expired: self.expired,
                        };
                        Action::Return
                    } else {
                        self.alive = self.alive - 1;
                        Action::Wait
                    }
                },
                Event::TimeoutElapsed => {
                    if expires {
                        self.expired = true;
                        Action::Abort
                    } else {
                        Action::Wait
                    }
                },
                _ => Action::Wait,
            },
            Phase::Stopped => match event {
                Event::Accepted => Action::Refuse,
                _ => Action::Wait,
            },
        }
    }

    /// Where the supervisor stands.
    pub fn phase(&self) -> (phase: Phase)
        ensures
            phase == self@.phase,
    {
        self.phase
    }

    /// The number of connections whose handling has begun and not ended.
    pub fn alive(&self) -> (alive: usize)
        ensures
            alive == self@.alive,
    {
        self.alive
    }

    /// The grace period, if shutdown is bounded.
    pub fn timeout(&self) -> (timeout: Option<Duration>)
        ensures
            timeout == self@.timeout,
    {
        self.timeout
    }

    /// Tells whether the grace period is over.
    pub fn expired(&self) -> (expired: bool)
        ensures
            expired == self@.expired,
    {
        self.expired
    }
}

/// Something that hands over the connections that arrive at the addresses
/// it is bound to.
pub trait Acceptor {
    /// An address.
    type Addr;

    /// The addresses that the acceptor is bound to.
    fn local_addr(&self) -> Result<Vec<Self::Addr>, std::io::Error>;
}

/// A server: an acceptor that is ready to hand over connections.
pub struct Server<T> {
    acceptor: T,
}

impl<T> View for Server<T> {
    type V = T;

    /// The acceptor that the server holds.
    closed spec fn view(&self) -> T {
        self.acceptor
    }
}

impl<T: Acceptor> Server<T> {
    /// Makes a server of what became of a listener. A listener that could
    /// not be made an acceptor gives no server: its error is handed on.
    pub fn new(acceptor: Result<T, std::io::Error>) -> (server: Result<Server<T>, std::io::Error>)
        ensures
            match acceptor {
                Ok(a) => server matches Ok(s) && s@ == a,
                Err(e) => server matches Err(f) && f == e,
            },
    {
        match acceptor {
            Ok(acceptor) => Ok(Server { acceptor }),
            Err(e) => Err(e),
        }
    }

    /// The addresses that the server is bound to, as its acceptor reports
    /// them.
    pub fn local_addr(&self) -> (addrs: Result<Vec<T::Addr>, std::io::Error>)
        ensures
            call_ensures(T::local_addr, (&self@,), addrs),
    {
        self.acceptor.local_addr()
    }

    /// Begins serving without end: hands out the acceptor, and a
    /// supervisor that is running with no connection alive and no grace
    /// period.
    pub fn run(self) -> (parts: (T, Supervisor))
        ensures
            parts.0 == self@,
            parts.1@ == State::start(None),
    {
        self.run_with_graceful_shutdown(None)
    }

    /// Begins serving until a shutdown signal: hands out the acceptor, and
    /// a supervisor that is running with no connection alive. With a
    /// timeout, the connections alive at shutdown are given that long.
    pub fn run_with_graceful_shutdown(self, timeout: Option<Duration>) -> (parts: (T, Supervisor))
        ensures
            parts.0 == self@,
            parts.1@ == State::start(timeout),
    {
        (self.acceptor, Supervisor::new(timeout))
    }
}

/// The machine keeps its invariant and its grace period, whatever
/// happens.
pub proof fn lemma_invariant(state: State, events: Seq<Event>)
    requires
        state.inv(),
    ensures
        state.after(events).inv(),
        state.after(events).timeout == state.timeout,
    decreases events.len(),
{
    if events.len() > 0 {
        lemma_invariant(state.next(events[0]), events.skip(1));
    }
}

/// The phases follow one another in one direction: running, shutting
/// down, draining, stopped. No event takes the machine back, none takes it
/// out of the last phase, and only the shutdown signal takes it out of the
/// first.
pub proof fn lemma_phases_move_forward(state: State, events: Seq<Event>)
    ensures
        state.after(events).phase.rank() >= state.phase.rank(),
        state.phase is Stopped ==> state.after(events) == state,
        forall|event: Event|
            state.phase is Running && !(event is Shutdown) ==> (#[trigger] state.next(
                event,
            )).phase is Running,
    decreases events.len(),
{
    if events.len() > 0 {
        lemma_phases_move_forward(state.next(events[0]), events.skip(1));
    }
}

/// The end of serving is announced once. A step says that serving ends
/// exactly when it stops the machine, and in any run of events at most one
/// step does.
pub proof fn lemma_one_return(state: State, events: Seq<Event>)
    requires
        state.inv(),
    ensures
        forall|event: Event| #[trigger]
            state.action(event) is Return <==> !(state.phase is Stopped) && state.next(
                event,
            ).phase is Stopped,
        forall|i: int, j: int|
            0 <= i < j < events.len() && (#[trigger] state.after(events.take(i))).action(
                events[i],
            ) is Return ==> !((#[trigger] state.after(events.take(j))).action(events[j]) is Return),
{
    assert forall|i: int, j: int|
        0 <= i < j < events.len() && (#[trigger] state.after(events.take(i))).action(
            events[i],
        ) is Return implies !((#[trigger] state.after(events.take(j))).action(events[j]) is Return) by {
        let at_i = state.after(events.take(i));
        let behind_i = state.after(events.take(i + 1));
        lemma_after_split(state, events.take(i + 1), i);
        assert(events.take(i + 1).take(i) == events.take(i));
        assert(events.take(i + 1).skip(i) == seq![events[i]]);
        assert(at_i.after(seq![events[i]]) == at_i.next(events[i])) by {
            let one = seq![events[i]];
            assert(one[0] == events[i]);
            assert(one.skip(1).len() == 0);
            assert(at_i.next(events[i]).after(one.skip(1)) == at_i.next(events[i]));
        }
        lemma_invariant(state, events.take(i));
        assert(behind_i.phase is Stopped);
        lemma_after_split(state, events.take(j), i + 1);
        assert(events.take(j).take(i + 1) == events.take(i + 1));
        lemma_phases_move_forward(behind_i, events.take(j).skip(i + 1));
    }
}

/// Events may be taken in two runs, one behind the other.
proof fn lemma_after_split(state: State, events: Seq<Event>, k: int)
    requires
        0 <= k <= events.len(),
    ensures
        state.after(events) == state.after(events.take(k)).after(events.skip(k)),
    decreases k,
{
    if k == 0 {
        assert(events.take(0) == Seq::<Event>::empty());
        assert(events.skip(0) == events);
    } else {
        lemma_after_split(state.next(events[0]), events.skip(1), k - 1);
        assert(events.take(k)[0] == events[0]);
        assert(events.take(k).skip(1) == events.skip(1).take(k - 1));
        assert(events.skip(1).skip(k - 1) == events.skip(k));
    }
}

/// Graceful shutdown waits for every connection. Once the shutdown signal
/// has fired, whatever is reported afterwards, no connection is taken and
/// the number alive never grows: it is the number alive at the signal less
/// the connections reported as ended. So serving ends only after as many
/// connections have ended as were alive at the signal.
pub proof fn lemma_shutdown_drains(state: State, events: Seq<Event>)
    requires
        state.inv(),
        !(state.phase is Running),
    ensures
        !(state.after(events).phase is Running),
        forall|k: int|
            0 <= k < events.len() ==> !(#[trigger] state.after(events.take(k)).action(
                events[k],
            ) is Serve),
        state.after(events).alive == if closures(events) <= state.alive {
            state.alive - closures(events)
        } else {
            0
        },
        state.after(events).phase is Stopped && !(state.phase is Stopped) ==> closures(events)
            >= state.alive,
    decreases events.len(),
{
    if events.len() > 0 {
        let then = state.next(events[0]);
        let rest = events.skip(1);
        lemma_shutdown_drains(then, rest);
        assert forall|k: int| 0 <= k < events.len() implies !(#[trigger] state.after(
            events.take(k),
        ).action(events[k]) is Serve) by {
            if k == 0 {
                assert(events.take(0) == Seq::<Event>::empty());
            } else {
                assert(events.take(k).skip(1) == rest.take(k - 1));
                assert(events.take(k)[0] == events[0]);
                assert(state.after(events.take(k)) == then.after(rest.take(k - 1)));
                assert(events[k] == rest[k - 1]);
            }
        }
    } else {
        assert forall|k: int| 0 <= k < events.len() implies !(#[trigger] state.after(
            events.take(k),
        ).action(events[k]) is Serve) by {
        }
    }
}

/// `n` reports of an ended connection.
pub open spec fn endings(n: nat) -> Seq<Event> {
    Seq::new(n, |i: int| Event::ConnectionClosed)
}

/// Shutdown is bounded by the grace period. A supervisor with a grace
/// period starts every connection bounded, and at the shutdown signal asks
/// for a timer of that length. When the period is over while connections
/// are alive, it aborts them, once. And once the connections that were
/// alive have ended, as the abort makes the bounded ones do, serving
/// ends. Nothing but the end of a grace period ever aborts a connection,
/// so without one connections are left to finish.
pub proof fn lemma_timeout_bounds_shutdown(state: State)
    requires
        state.inv(),
    ensures
        state.phase is Running && state.alive < usize::MAX ==> state.action(Event::Accepted) == (
        Action::Serve { bounded: state.timeout is Some }),
        state.phase is Running ==> state.action(Event::Shutdown) == (Action::StopAccepting {
            timer: state.timeout,
        }),
        (state.phase is ShuttingDown || state.phase is Draining) && state.timeout is Some
            && !state.expired ==> state.action(Event::TimeoutElapsed) is Abort,
        !(state.next(Event::TimeoutElapsed).action(Event::TimeoutElapsed) is Abort),
        forall|event: Event| #[trigger]
            state.action(event) is Abort ==> event is TimeoutElapsed && state.timeout is Some,
        state.phase is Draining ==> state.after(endings(state.alive)).phase is Stopped,
        state.phase is Draining ==> state.after(endings((state.alive - 1) as nat)).action(
            Event::ConnectionClosed,
        ) is Return,
{
    if state.phase is Draining {
        lemma_drained(state, state.alive);
    }
}

proof fn lemma_drained(state: State, n: nat)
    requires
        state.inv(),
        state.phase is Draining,
        n == state.alive,
    ensures
        state.after(endings(n)).phase is Stopped,
        state.after(endings((n - 1) as nat)).phase is Draining,
        state.after(endings((n - 1) as nat)).alive == 1,
    decreases n,
{
    assert(endings(n)[0] == Event::ConnectionClosed);
    assert(endings(n).skip(1) == endings((n - 1) as nat));
    if n > 1 {
        lemma_drained(state.next(Event::ConnectionClosed), (n - 1) as nat);
        assert(endings((n - 1) as nat)[0] == Event::ConnectionClosed);
        assert(endings((n - 1) as nat).skip(1) == endings((n - 2) as nat));
    } else {
        assert(endings(0) == Seq::<Event>::empty());
        assert(state.next(Event::ConnectionClosed).after(endings(0)).phase is Stopped);
    }
}

} // verus!
