//! The accept loop.

use crate::net::{IpAddr, SocketAddr};
use std::sync::Arc;
use vstd::pervasive::strictly_cloned;
use vstd::prelude::*;

verus! {

/// Where the server listens.
#[derive(Clone, Copy, Debug, PartialEq, Eq, Structural)]
pub struct Opts {
    pub ip: IpAddr,
    pub port: u16,
}

/// The server, as the command line describes it.
#[derive(Clone, Copy, Debug, PartialEq, Eq, Structural)]
pub struct Server {
    pub opts: Opts,
}

/// What the accept loop is waiting for.
#[derive(Clone, Copy, Debug, PartialEq, Eq, Structural)]
pub enum Phase {
    Scenario,
    Bind,
    Trace,
    Accept,
    Spawn,
    Ended,
}

/// What became of the last operation. `K` is a connection, `S` a scenario, `T` a trace, and `E` the
/// error of a socket operation.
pub enum Event<K, S, T, E> {
    ScenarioLoaded(Arc<S>),
    Bound(Result<(), E>),
    TraceOpened(T),
    Accepted(Result<K, E>),
    Spawned,
}

/// A connection that came in and all that it is served with. `C` is the configuration of what
/// multiplexes it.
pub struct Task<K, S, T, C> {
    pub connection: K,
    /// The number of the connection.
    pub conn_id: u64,
    pub scenario: Arc<S>,
    pub trace: T,
    pub config: C,
}

/// The next operation.
pub enum Action<K, S, T, C, E> {
    /// Load the scenario that all connections share.
    LoadScenario,
    /// Listen on this address.
    Bind(SocketAddr),
    /// Open the trace that each connection gets a clone of.
    OpenTrace,
    /// Wait for a connection.
    Accept,
    /// Serve this connection, which has just been accepted, in a task of its own.
    Spawn(Task<K, S, T, C>),
    /// Stop listening and report this error.
    Return(E),
}

/// A run of the accept loop.
pub struct Run<S, T, C> {
    pub address: SocketAddr,
    pub phase: Phase,
    /// The number that the next connection gets.
    pub conn_id: u64,
    /// The scenario, once it is loaded.
    pub scenario: Option<Arc<S>>,
    /// The trace, once it is open.
    pub trace: Option<T>,
    pub config: C,
}

impl Server {
    /// The address to listen on.
    pub fn server(&self) -> (address: SocketAddr)
        ensures
            address == SocketAddr::at(self.opts.ip, self.opts.port),
    {
        SocketAddr::new(self.opts.ip, self.opts.port)
    }

    /// Starts the accept loop: the first thing to do is to load the scenario. Connections are
    /// multiplexed under the default configuration, whatever the scenario holds.
    pub fn run<K, S, T, C: Default, E>(&self) -> (started: (Run<S, T, C>, Action<K, S, T, C, E>))
        ensures
            started.0.begun(),
            started.0.address == SocketAddr::at(self.opts.ip, self.opts.port),
            C::default.ensures((), started.0.config),
            started.1 == Action::<K, S, T, C, E>::LoadScenario,
    {
        let run = Run {
            address: self.server(),
            phase: Phase::Scenario,
            conn_id: 0,
            scenario: None,
            trace: None,
            config: C::default(),
        };
        (run, Action::LoadScenario)
    }
}

impl<K, S, T, E> Event<K, S, T, E> {
    /// The phase in which the event can come.
    pub open spec fn phase(self) -> Phase {
        match self {
            Event::ScenarioLoaded(_) => Phase::Scenario,
            Event::Bound(_) => Phase::Bind,
            Event::TraceOpened(_) => Phase::Trace,
            Event::Accepted(_) => Phase::Accept,
            Event::Spawned => Phase::Spawn,
        }
    }

    /// The phase that the event leads to.
    pub open spec fn next_phase(self) -> Phase {
        match self {
            Event::ScenarioLoaded(_) => Phase::Bind,
            Event::Bound(Ok(_)) => Phase::Trace,
            Event::TraceOpened(_) => Phase::Accept,
            Event::Accepted(Ok(_)) => Phase::Spawn,
            Event::Spawned => Phase::Accept,
            Event::Bound(Err(_)) | Event::Accepted(Err(_)) => Phase::Ended,
        }
    }

    /// Whether a connection came in.
    pub open spec fn is_connection(self) -> bool {
        self matches Event::Accepted(Ok(_))
    }
}

impl<S, T, C> Run<S, T, C> {
    /// Whether nothing has been done yet.
    pub open spec fn begun(self) -> bool {
        &&& self.phase == Phase::Scenario
        &&& self.conn_id == 0
        &&& self.scenario is None
        &&& self.trace is None
    }

    /// Whether the scenario and the trace are at hand when a connection can come.
    pub open spec fn wf(self) -> bool {
        &&& self.phase != Phase::Scenario ==> self.scenario is Some
        &&& self.phase == Phase::Accept || self.phase == Phase::Spawn ==> self.trace is Some
    }

    /// Whether `event` can come now. Connections are numbered with 64 bits, so no connection can
    /// come when only the last number is left.
    pub open spec fn awaits<K, E>(self, event: Event<K, S, T, E>) -> bool {
        &&& self.wf()
        &&& self.phase == event.phase()
        &&& event.is_connection() ==> self.conn_id < u64::MAX
    }

    /// The state after `event`.
    pub open spec fn after<K, E>(self, event: Event<K, S, T, E>) -> Run<S, T, C> {
        Run {
            address: self.address,
            phase: event.next_phase(),
            conn_id: if event.is_connection() {
                (self.conn_id + 1) as u64
            } else {
                self.conn_id
            },
            scenario: if let Event::ScenarioLoaded(scenario) = event {
                Some(scenario)
            } else {
                self.scenario
            },
            trace: if let Event::TraceOpened(trace) = event {
                Some(trace)
            } else {
                self.trace
            },
            config: self.config,
        }
    }

    /// The state after all of `events`, in order.
    pub open spec fn after_all<K, E>(self, events: Seq<Event<K, S, T, E>>) -> Run<S, T, C>
        decreases events.len(),
    {
        if events.len() == 0 {
            self
        } else {
            self.after_all(events.drop_last()).after(events.last())
        }
    }

    /// Whether every one of `events` can come when the ones before it have.
    pub open spec fn awaits_all<K, E>(self, events: Seq<Event<K, S, T, E>>) -> bool {
        forall|i: int|
            0 <= i < events.len() ==> #[trigger] self.after_all(events.take(i)).awaits(events[i])
    }
}

impl<S, T: Clone, C: Clone> Run<S, T, C> {
    /// Whether `task` is `connection` and what it is served with: the number that is next, the
    /// scenario itself, and clones of the trace and of the configuration.
    pub open spec fn serves<K>(self, connection: K, task: Task<K, S, T, C>) -> bool {
        &&& task.connection == connection
        &&& task.conn_id == self.conn_id
        &&& self.scenario == Some(task.scenario)
        &&& self.trace matches Some(trace) && strictly_cloned(trace, task.trace)
        &&& strictly_cloned(self.config, task.config)
    }

    /// Whether `action` is the operation that follows `event`.
    pub open spec fn replies<K, E>(
        self,
        event: Event<K, S, T, E>,
        action: Action<K, S, T, C, E>,
    ) -> bool {
        match event {
            Event::ScenarioLoaded(_) => action == Action::<K, S, T, C, E>::Bind(self.address),
            Event::Bound(Ok(_)) => action == Action::<K, S, T, C, E>::OpenTrace,
            Event::TraceOpened(_) | Event::Spawned => action
                == Action::<K, S, T, C, E>::Accept,
            Event::Accepted(Ok(connection)) => action matches Action::Spawn(task) && self.serves(
                connection,
                task,
            ),
            Event::Bound(Err(error)) | Event::Accepted(Err(error)) => action
                == Action::<K, S, T, C, E>::Return(error),
        }
    }

    /// Takes in what became of the last operation and gives the next one.
    pub fn step<K, E>(&mut self, event: Event<K, S, T, E>) -> (action: Action<K, S, T, C, E>)
        requires
            old(self).awaits(event),
        ensures
            old(self).replies(event, action),
            *final(self) == old(self).after(event),
            final(self).wf(),
    {
        match event {
            Event::ScenarioLoaded(scenario) => {
                self.scenario = Some(scenario);
                self.phase = Phase::Bind;
                Action::Bind(self.address)
            },
            Event::Bound(Ok(_)) => {
                self.phase = Phase::Trace;
                Action::OpenTrace
            },
            Event::TraceOpened(trace) => {
                self.trace = Some(trace);
                self.phase = Phase::Accept;
                Action::Accept
            },
            Event::Spawned => {
                self.phase = Phase::Accept;
                Action::Accept
            },
            Event::Accepted(Ok(connection)) => {
                let task = Task {
                    connection,
                    conn_id: self.conn_id,
                    scenario: self.scenario.as_ref().unwrap().clone(),
                    trace: self.trace.as_ref().unwrap().clone(),
                    config: self.config.clone(),
                };
                self.conn_id = self.conn_id + 1;
                self.phase = Phase::Spawn;
                Action::Spawn(task)
            },
            Event::Bound(Err(error)) | Event::Accepted(Err(error)) => {
                self.phase = Phase::Ended;
                Action::Return(error)
            },
        }
    }

    /// Whether `action` is the operation that follows `events[i]`, when all of `events` come in
    /// order.
    pub open spec fn replies_at<K, E>(
        self,
        events: Seq<Event<K, S, T, E>>,
        i: int,
        action: Action<K, S, T, C, E>,
    ) -> bool {
        self.after_all(events.take(i)).replies(events[i], action)
    }
}

/// How many of `events` are connections.
pub open spec fn connections<K, S, T, E>(events: Seq<Event<K, S, T, E>>) -> nat
    decreases events.len(),
{
    if events.len() == 0 {
        0
    } else {
        connections(events.drop_last()) + if events.last().is_connection() {
            1nat
        } else {
            0nat
        }
    }
}

/// The state just after `events[i]` in terms of the state just before it.
proof fn lemma_unfold<K, S, T, C, E>(run: Run<S, T, C>, events: Seq<Event<K, S, T, E>>, i: int)
    requires
        run.awaits_all(events),
        0 <= i < events.len(),
    ensures
        run.after_all(events.take(i)).awaits(events[i]),
        run.after_all(events.take(i + 1)) == run.after_all(events.take(i)).after(events[i]),
        connections(events.take(i + 1)) == connections(events.take(i)) + if events[i].is_connection() {
            1nat
        } else {
            0nat
        },
{
    assert(events.take(i + 1).drop_last() =~= events.take(i));
}

/// The number that the next connection gets is the number of connections so far.
proof fn lemma_conn_id_counts<K, S, T, C, E>(
    run: Run<S, T, C>,
    events: Seq<Event<K, S, T, E>>,
    n: int,
)
    requires
        run.begun(),
        run.awaits_all(events),
        0 <= n <= events.len(),
    ensures
        run.after_all(events.take(n)).conn_id == connections(events.take(n)),
    decreases n,
{
    if n > 0 {
        lemma_conn_id_counts(run, events, n - 1);
        lemma_unfold(run, events, n - 1);
    }
}

proof fn lemma_connections_grow<K, S, T, E>(events: Seq<Event<K, S, T, E>>, i: int, j: int)
    requires
        0 <= i <= j <= events.len(),
    ensures
        connections(events.take(i)) <= connections(events.take(j)),
    decreases j,
{
    if i < j {
        lemma_connections_grow(events, i, j - 1);
        assert(events.take(j).drop_last() =~= events.take(j - 1));
    }
}

/// Which events come when, and what is at hand by then.
proof fn lemma_order<K, S, T, C, E>(run: Run<S, T, C>, events: Seq<Event<K, S, T, E>>, i: int)
    requires
        run.begun(),
        run.awaits_all(events),
        0 <= i < events.len(),
    ensures
        i == 0 ==> events[i] is ScenarioLoaded,
        i == 1 ==> events[i] is Bound,
        i == 2 ==> events[i] is TraceOpened,
        i >= 3 && i % 2 == 1 ==> events[i] is Accepted,
        i >= 3 && i % 2 == 0 ==> events[i] is Spawned,
        ({
            let before = run.after_all(events.take(i));
            &&& before.address == run.address
            &&& before.config == run.config
            &&& i > 0 ==> (events[0] matches Event::ScenarioLoaded(scenario) && before.scenario
                == Some(scenario))
            &&& i > 2 ==> (events[2] matches Event::TraceOpened(trace) && before.trace == Some(
                trace,
            ))
        }),
    decreases i,
{
    assert(run.after_all(events.take(i)).awaits(events[i]));
    if i > 0 {
        lemma_order(run, events, i - 1);
        lemma_unfold(run, events, i - 1);
    }
}

/// Every connection that comes in is served, under the number of connections that came in before
/// it, and nothing else is.
pub proof fn law_connections_are_numbered_in_order<K, S, T: Clone, C: Clone, E>(
    run: Run<S, T, C>,
    events: Seq<Event<K, S, T, E>>,
    i: int,
    action: Action<K, S, T, C, E>,
)
    requires
        run.begun(),
        run.awaits_all(events),
        0 <= i < events.len(),
        run.replies_at(events, i, action),
    ensures
        events[i] matches Event::Accepted(Ok(connection)) ==> {
            &&& action matches Action::Spawn(task)
            &&& task.connection == connection
            &&& task.conn_id == connections(events.take(i))
        },
        action is Spawn ==> events[i].is_connection(),
{
    lemma_conn_id_counts(run, events, i);
}

/// No two connections of one run share a number: one that comes later gets a larger one.
pub proof fn law_connection_numbers_are_unique<K, S, T: Clone, C: Clone, E>(
    run: Run<S, T, C>,
    events: Seq<Event<K, S, T, E>>,
    i: int,
    one: Task<K, S, T, C>,
    j: int,
    other: Task<K, S, T, C>,
)
    requires
        run.begun(),
        run.awaits_all(events),
        0 <= i < j < events.len(),
        run.replies_at(events, i, Action::Spawn(one)),
        run.replies_at(events, j, Action::Spawn(other)),
    ensures
        one.conn_id < other.conn_id,
{
    lemma_conn_id_counts(run, events, i);
    lemma_conn_id_counts(run, events, j);
    lemma_unfold(run, events, i);
    lemma_connections_grow(events, i + 1, j);
}

/// Every connection is served with the one scenario that was loaded, with a clone of its own of the
/// one trace that was opened, and with a clone of the one configuration that the run started with,
/// however many connections come.
pub proof fn law_connections_share_what_they_are_served_with<K, S, T: Clone, C: Clone, E>(
    run: Run<S, T, C>,
    events: Seq<Event<K, S, T, E>>,
    i: int,
    task: Task<K, S, T, C>,
)
    requires
        run.begun(),
        run.awaits_all(events),
        0 <= i < events.len(),
        run.replies_at(events, i, Action::Spawn(task)),
    ensures
        events[0] == Event::<K, S, T, E>::ScenarioLoaded(task.scenario),
        events[2] matches Event::TraceOpened(trace) && strictly_cloned(trace, task.trace),
        strictly_cloned(run.config, task.config),
{
    lemma_order(run, events, i);
}

/// The scenario is loaded first, the listener is bound to the server's address next, and the
/// trace is opened third. Each of these is done once. From then on the loop waits for a connection
/// and serves it, in turn.
pub proof fn law_operations_come_in_order<K, S, T: Clone, C: Clone, E>(
    run: Run<S, T, C>,
    events: Seq<Event<K, S, T, E>>,
    i: int,
    action: Action<K, S, T, C, E>,
)
    requires
        run.begun(),
        run.awaits_all(events),
        0 <= i < events.len(),
        run.replies_at(events, i, action),
    ensures
        i == 0 ==> events[i] is ScenarioLoaded,
        i == 1 ==> events[i] is Bound,
        i == 2 ==> events[i] is TraceOpened,
        i >= 3 && i % 2 == 1 ==> events[i] is Accepted,
        i >= 3 && i % 2 == 0 ==> events[i] is Spawned,
        action !is LoadScenario,
        action is Bind <==> i == 0,
        i == 0 ==> action == Action::<K, S, T, C, E>::Bind(run.address),
        action is OpenTrace ==> i == 1,
{
    lemma_order(run, events, i);
}

/// The loop ends with an error, and only when listening or accepting gave that error. Nothing
/// follows: in particular no connection that was accepted, however it fares, ends the loop.
pub proof fn law_only_socket_errors_end_the_loop<K, S, T: Clone, C: Clone, E>(
    run: Run<S, T, C>,
    events: Seq<Event<K, S, T, E>>,
    i: int,
    action: Action<K, S, T, C, E>,
)
    requires
        run.begun(),
        run.awaits_all(events),
        0 <= i < events.len(),
        run.replies_at(events, i, action),
    ensures
        match action {
            Action::Return(error) => {
                &&& events[i] == Event::<K, S, T, E>::Bound(Err(error)) || events[i] == Event::<
                    K,
                    S,
                    T,
                    E,
                >::Accepted(Err(error))
                &&& i == events.len() - 1
            },
            _ => !(events[i] matches Event::Bound(Err(_))) && !(events[i] matches Event::Accepted(
                Err(_),
            )),
        },
{
    lemma_unfold(run, events, i);
    if i + 1 < events.len() {
        lemma_unfold(run, events, i + 1);
    }
}

impl<K, S, T, C, E> Action<K, S, T, C, E> {
    /// Whether `event` tells what became of the operation. Nothing comes after the end.
    pub open spec fn answered_by(self, event: Event<K, S, T, E>) -> bool {
        match self {
            Action::LoadScenario => event is ScenarioLoaded,
            Action::Bind(_) => event is Bound,
            Action::OpenTrace => event is TraceOpened,
            Action::Accept => event is Accepted,
            Action::Spawn(_) => event is Spawned,
            Action::Return(_) => false,
        }
    }
}

/// Whether `events[i]` takes the loop and what it asks for on, as a call of `step` does.
spec fn moves_on<K, S, T: Clone, C: Clone, E>(
    states: Seq<Run<S, T, C>>,
    actions: Seq<Action<K, S, T, C, E>>,
    events: Seq<Event<K, S, T, E>>,
    i: int,
) -> bool {
    &&& actions[i].answered_by(events[i])
    &&& states[i].awaits(events[i]) ==> {
        &&& states[i].replies(events[i], actions[i + 1])
        &&& states[i + 1] == states[i].after(events[i])
    }
}

proof fn lemma_turn<K, S, T: Clone, C: Clone, E>(
    states: Seq<Run<S, T, C>>,
    actions: Seq<Action<K, S, T, C, E>>,
    events: Seq<Event<K, S, T, E>>,
    i: int,
)
    requires
        states.len() == actions.len() == events.len() + 1,
        events.len() <= u64::MAX,
        states[0].begun(),
        actions[0] is LoadScenario,
        forall|j: int| 0 <= j < events.len() ==> #[trigger] moves_on(states, actions, events, j),
        0 <= i < actions.len(),
    ensures
        states[i].wf(),
        states[i].address == states[0].address,
        states[i].config == states[0].config,
        states[i].conn_id == if i < 4 {
            0
        } else if actions[i] is Return {
            states[i].conn_id as int
        } else {
            (i - 2) / 2
        },
        i > 0 ==> (events[0] matches Event::ScenarioLoaded(scenario) && states[i].scenario == Some(
            scenario,
        )),
        i > 2 ==> (events[2] matches Event::TraceOpened(trace) && states[i].trace == Some(trace)),
        i < events.len() ==> states[i].phase == events[i].phase(),
        i == 0 <==> actions[i] is LoadScenario,
        i == 1 <==> actions[i] is Bind,
        actions[i] is OpenTrace ==> i == 2,
        i == 2 ==> actions[i] is OpenTrace || actions[i] is Return,
        i > 2 && i % 2 == 1 <==> actions[i] is Accept,
        i > 2 && i % 2 == 0 ==> actions[i] is Spawn || actions[i] is Return,
        actions[i] is Spawn ==> i > 2 && i % 2 == 0,
        i > 0 ==> states[i - 1].replies(events[i - 1], actions[i]) && actions[i - 1].answered_by(
            events[i - 1],
        ),
    decreases i,
{
    if i > 0 {
        lemma_turn(states, actions, events, i - 1);
        assert(moves_on(states, actions, events, i - 1));
    }
    if i < events.len() {
        assert(moves_on(states, actions, events, i));
    }
}

/// Whatever the address and however many connections come, the server loads the scenario, listens
/// on its address and opens the trace, each once and in this order. Then it waits for a connection
/// and serves it, in turn: the very connection that came, under the number of connections before
/// it, with the scenario that was loaded, a clone of the trace that was opened and a clone of a
/// default configuration. It ends exactly when listening or accepting fails, with that error. The
/// server starts with `run` and goes on with `step`: `calls` is the loop as each call gets it,
/// `states` what it is before and after. Whatever becomes of an operation can be handed in, up to
/// as many connections as there are numbers.
pub proof fn law_connections_that_come_are_served<K, S, T: Clone, C: Clone + Default, E>(
    server: Server,
    states: Seq<Run<S, T, C>>,
    calls: Seq<&mut Run<S, T, C>>,
    actions: Seq<Action<K, S, T, C, E>>,
    events: Seq<Event<K, S, T, E>>,
    i: int,
)
    requires
        events.len() <= u64::MAX,
        states.len() == actions.len() == events.len() + 1,
        calls.len() == events.len(),
        call_ensures(Server::run::<K, S, T, C, E>, (&server,), (states[0], actions[0])),
        forall|j: int| 0 <= j < events.len() ==> (#[trigger] actions[j]).answered_by(events[j]),
        forall|j: int|
            #![trigger calls[j]]
            0 <= j < events.len() ==> {
                &&& *calls[j] == states[j]
                &&& *final(calls[j]) == states[j + 1]
                &&& call_requires(Run::<S, T, C>::step::<K, E>, (calls[j], events[j])) ==> call_ensures(
                    Run::<S, T, C>::step::<K, E>,
                    (calls[j], events[j]),
                    actions[j + 1],
                )
            },
        0 <= i < actions.len(),
    ensures
        call_requires(Server::run::<K, S, T, C, E>, (&server,)),
        i < events.len() ==> call_requires(Run::<S, T, C>::step::<K, E>, (calls[i], events[i])),
        i == 0 ==> actions[i] is LoadScenario,
        i == 1 ==> (actions[i] matches Action::Bind(address) && address.ip == server.opts.ip
            && address.port == server.opts.port && address.flowinfo == 0 && address.scope_id == 0),
        i == 2 ==> (events[1] matches Event::Bound(bound) && match bound {
            Ok(_) => actions[i] is OpenTrace,
            Err(error) => actions[i] == Action::<K, S, T, C, E>::Return(error),
        }),
        i > 2 && i % 2 == 1 ==> actions[i] is Accept,
        i > 2 && i % 2 == 0 ==> (events[i - 1] matches Event::Accepted(accepted) && match accepted {
            Ok(connection) => {
                &&& actions[i] matches Action::Spawn(task)
                &&& task.connection == connection
                &&& task.conn_id == (i - 4) / 2
                &&& events[0] == Event::<K, S, T, E>::ScenarioLoaded(task.scenario)
                &&& events[2] matches Event::TraceOpened(trace) && strictly_cloned(
                    trace,
                    task.trace,
                )
                &&& call_ensures(C::default, (), states[0].config)
                &&& strictly_cloned(states[0].config, task.config)
            },
            Err(error) => actions[i] == Action::<K, S, T, C, E>::Return(error),
        }),
{
    assert forall|j: int| 0 <= j < events.len() implies #[trigger] moves_on(
        states,
        actions,
        events,
        j,
    ) by {
        assert(*calls[j] == states[j]);
        assert(actions[j].answered_by(events[j]));
    }
    lemma_turn(states, actions, events, i);
    if i < events.len() {
        assert(moves_on(states, actions, events, i));
        assert(*calls[i] == states[i]);
    }
    if i > 0 {
        lemma_turn(states, actions, events, i - 1);
    }
}

/// The address that the server listens on has the IP address and the port of the options.
pub proof fn law_the_server_listens_where_it_is_told(server: Server, address: SocketAddr)
    requires
        call_ensures(Server::server, (&server,), address),
    ensures
        call_requires(Server::server, (&server,)),
        address.ip == server.opts.ip,
        address.port == server.opts.port,
        address.flowinfo == 0,
        address.scope_id == 0,
{
}

} // verus!
