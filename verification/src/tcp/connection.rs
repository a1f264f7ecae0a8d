//! Serving one accepted connection.

use vstd::prelude::*;
use vstd::string::StringExecFns;

verus! {

/// The second number that a trace is entered with, next to the number of the connection.
pub const TRACE_LANE: u64 = 0;

/// Why a connection was given up. `E` is the error of the socket or of the driver.
pub enum HandleError<E> {
    /// The peer asked for a connection that the scenario does not have.
    InvalidConnectionId,
    Outside(E),
}

impl HandleError<String> {
    /// What is said of the error.
    pub open spec fn text(self) -> Seq<char> {
        match self {
            HandleError::InvalidConnectionId => "invalid connection id"@,
            HandleError::Outside(text) => text@,
        }
    }

    /// The line that reports the error.
    pub fn report(&self) -> (line: String)
        ensures
            line@ == "error: "@ + self.text(),
    {
        let line = String::from_str("error: ");
        match self {
            HandleError::InvalidConnectionId => line.concat("invalid connection id"),
            HandleError::Outside(text) => line.concat(text.as_str()),
        }
    }
}

/// The connection of the scenario that a peer asks for by `server_idx`. The index is taken at the
/// width of the machine.
pub fn connection<C, E>(connections: &[C], server_idx: u64) -> (found: Result<&C, HandleError<E>>)
    ensures
        (server_idx as usize) < connections@.len() ==> found == Ok::<&C, HandleError<E>>(
            &connections@[(server_idx as usize) as int],
        ),
        (server_idx as usize) >= connections@.len() ==> found == Err::<&C, HandleError<E>>(
            HandleError::InvalidConnectionId,
        ),
{
    let index: usize = server_idx as usize;
    if index < connections.len() {
        Ok(&connections[index])
    } else {
        Err(HandleError::InvalidConnectionId)
    }
}

/// What the handler is waiting for.
#[derive(Clone, Copy, Debug, PartialEq, Eq, Structural)]
pub enum Phase {
    Index,
    Open,
    Enter,
    Drive,
    Exit,
    Ended,
}

/// What became of the last operation.
pub enum Event<E> {
    /// The peer named the connection that it wants, or reading that failed.
    Index(Result<u64, E>),
    Opened,
    Entered,
    Driven(Result<(), E>),
    Exited,
}

/// The next operation.
pub enum Action<'a, C, E> {
    /// Read the index of the connection that the peer wants.
    ReadIndex,
    /// Set up a driver that plays this connection of the scenario.
    Open(&'a C),
    /// Enter the trace, now, with these two numbers.
    Enter { conn_id: u64, lane: u64 },
    /// Run the driver until it is done.
    Drive,
    /// Leave the trace, now.
    Exit,
    /// The connection is over.
    Return(Result<(), HandleError<E>>),
}

/// The handler of the connection that was accepted under the number `conn_id`.
pub struct Handler<'a, C> {
    pub connections: &'a [C],
    pub conn_id: u64,
    pub phase: Phase,
}

impl<E> Event<E> {
    /// The phase in which the event can come.
    pub open spec fn phase(self) -> Phase {
        match self {
            Event::Index(_) => Phase::Index,
            Event::Opened => Phase::Open,
            Event::Entered => Phase::Enter,
            Event::Driven(_) => Phase::Drive,
            Event::Exited => Phase::Exit,
        }
    }
}

impl<'a, C, E> Action<'a, C, E> {
    /// The phase in which the operation is awaited.
    pub open spec fn phase(self) -> Phase {
        match self {
            Action::ReadIndex => Phase::Index,
            Action::Open(_) => Phase::Open,
            Action::Enter { .. } => Phase::Enter,
            Action::Drive => Phase::Drive,
            Action::Exit => Phase::Exit,
            Action::Return(_) => Phase::Ended,
        }
    }

    /// Whether `event` tells what became of the operation. Nothing comes after the end.
    pub open spec fn answered_by(self, event: Event<E>) -> bool {
        match self {
            Action::ReadIndex => event is Index,
            Action::Open(_) => event is Opened,
            Action::Enter { .. } => event is Entered,
            Action::Drive => event is Driven,
            Action::Exit => event is Exited,
            Action::Return(_) => false,
        }
    }
}

impl<'a, C> Handler<'a, C> {
    /// The operation that follows `event`.
    pub open spec fn reply<E>(self, event: Event<E>) -> Action<'a, C, E> {
        match event {
            Event::Index(Ok(server_idx)) => if (server_idx as usize) < self.connections@.len() {
                Action::Open(&self.connections@[(server_idx as usize) as int])
            } else {
                Action::Return(Err(HandleError::InvalidConnectionId))
            },
            Event::Index(Err(error)) => Action::Return(Err(HandleError::Outside(error))),
            Event::Opened => Action::Enter { conn_id: self.conn_id, lane: TRACE_LANE },
            Event::Entered => Action::Drive,
            Event::Driven(Ok(_)) => Action::Exit,
            Event::Driven(Err(error)) => Action::Return(Err(HandleError::Outside(error))),
            Event::Exited => Action::Return(Ok(())),
        }
    }

    /// The state after `event`.
    pub open spec fn after<E>(self, event: Event<E>) -> Handler<'a, C> {
        Handler {
            connections: self.connections,
            conn_id: self.conn_id,
            phase: self.reply(event).phase(),
        }
    }

    /// Starts to serve the connection numbered `conn_id` by a scenario of these `connections`.
    pub fn new<E>(connections: &'a [C], conn_id: u64) -> (started: (
        Handler<'a, C>,
        Action<'a, C, E>,
    ))
        ensures
            started.0 == (Handler { connections, conn_id, phase: Phase::Index }),
            started.1 == Action::<'a, C, E>::ReadIndex,
    {
        (Handler { connections, conn_id, phase: Phase::Index }, Action::ReadIndex)
    }

    /// Takes in what became of the last operation and gives the next one.
    pub fn step<E>(&mut self, event: Event<E>) -> (action: Action<'a, C, E>)
        requires
            old(self).phase == event.phase(),
        ensures
            action == old(self).reply(event),
            *final(self) == old(self).after(event),
    {
        match event {
            Event::Index(Ok(server_idx)) => match connection(self.connections, server_idx) {
                Ok(found) => {
                    self.phase = Phase::Open;
                    Action::Open(found)
                },
                Err(error) => {
                    self.phase = Phase::Ended;
                    Action::Return(Err(error))
                },
            },
            Event::Opened => {
                self.phase = Phase::Enter;
                Action::Enter { conn_id: self.conn_id, lane: TRACE_LANE }
            },
            Event::Entered => {
                self.phase = Phase::Drive;
                Action::Drive
            },
            Event::Driven(Ok(_)) => {
                self.phase = Phase::Exit;
                Action::Exit
            },
            Event::Exited => {
                self.phase = Phase::Ended;
                Action::Return(Ok(()))
            },
            Event::Index(Err(error)) | Event::Driven(Err(error)) => {
                self.phase = Phase::Ended;
                Action::Return(Err(HandleError::Outside(error)))
            },
        }
    }

    /// The state after all of `events`, in order.
    pub open spec fn after_all<E>(self, events: Seq<Event<E>>) -> Handler<'a, C>
        decreases events.len(),
    {
        if events.len() == 0 {
            self
        } else {
            self.after_all(events.drop_last()).after(events.last())
        }
    }

    /// Whether every one of `events` can come when the ones before it have.
    pub open spec fn awaits_all<E>(self, events: Seq<Event<E>>) -> bool {
        forall|i: int|
            0 <= i < events.len() ==> #[trigger] self.after_all(events.take(i)).phase
                == events[i].phase()
    }

    /// The operation that follows `events[i]`, when all of `events` come in order.
    pub open spec fn reply_at<E>(self, events: Seq<Event<E>>, i: int) -> Action<'a, C, E> {
        self.after_all(events.take(i)).reply(events[i])
    }
}

proof fn lemma_unfold<'a, C, E>(handler: Handler<'a, C>, events: Seq<Event<E>>, i: int)
    requires
        handler.awaits_all(events),
        0 <= i < events.len(),
    ensures
        handler.after_all(events.take(i)).phase == events[i].phase(),
        handler.after_all(events.take(i + 1)) == handler.after_all(events.take(i)).after(events[i]),
{
    assert(events.take(i + 1).drop_last() =~= events.take(i));
}

proof fn lemma_constant<'a, C, E>(handler: Handler<'a, C>, events: Seq<Event<E>>)
    ensures
        handler.after_all(events).connections == handler.connections,
        handler.after_all(events).conn_id == handler.conn_id,
    decreases events.len(),
{
    if events.len() > 0 {
        lemma_constant(handler, events.drop_last());
    }
}

/// A peer that names an index of the scenario is served that very connection, whatever the width
/// of the machine. One that names an index past the end, of those that fit the machine, is turned
/// away.
pub proof fn law_peers_are_served_the_connection_they_name<'a, C, E>(
    handler: Handler<'a, C>,
    server_idx: u64,
)
    requires
        handler.connections@.len() <= usize::MAX,
    ensures
        server_idx < handler.connections@.len() ==> handler.reply(Event::<E>::Index(Ok(server_idx)))
            == Action::<'a, C, E>::Open(&handler.connections@[server_idx as int]),
        handler.connections@.len() <= server_idx <= usize::MAX ==> handler.reply(
            Event::<E>::Index(Ok(server_idx)),
        ) == Action::<'a, C, E>::Return(Err(HandleError::InvalidConnectionId)),
{
}

/// The operations come in one order: the index is read, the driver set up, the trace entered, the
/// driver run, the trace left. So every connection is over after at most five events, and the
/// trace is entered once at most, under the number of the connection.
pub proof fn law_operations_come_in_order<'a, C, E>(
    handler: Handler<'a, C>,
    events: Seq<Event<E>>,
    i: int,
)
    requires
        handler.phase == Phase::Index,
        handler.awaits_all(events),
        0 <= i < events.len(),
    ensures
        events.len() <= 5,
        events[i] is Index <==> i == 0,
        events[i] is Opened <==> i == 1,
        events[i] is Entered <==> i == 2,
        events[i] is Driven <==> i == 3,
        events[i] is Exited <==> i == 4,
        i == 1 ==> (handler.reply_at(events, i) matches Action::Enter { conn_id, lane }
            && conn_id == handler.conn_id && lane == TRACE_LANE),
        handler.reply_at(events, i) is Enter ==> i == 1,
{
    lemma_position(handler, events, i);
    lemma_constant(handler, events.take(i));
    if events.len() > 5 {
        lemma_position(handler, events, 5);
    }
}

proof fn lemma_position<'a, C, E>(handler: Handler<'a, C>, events: Seq<Event<E>>, i: int)
    requires
        handler.phase == Phase::Index,
        handler.awaits_all(events),
        0 <= i < events.len(),
    ensures
        i < 5,
        events[i] is Index <==> i == 0,
        events[i] is Opened <==> i == 1,
        events[i] is Entered <==> i == 2,
        events[i] is Driven <==> i == 3,
        events[i] is Exited <==> i == 4,
    decreases i,
{
    lemma_unfold(handler, events, i);
    if i > 0 {
        lemma_position(handler, events, i - 1);
        lemma_unfold(handler, events, i - 1);
    } else {
        assert(events.take(0).len() == 0);
    }
}

/// A connection ends well exactly when its trace has been left, and its trace is left exactly when
/// the driver ran to its end without an error.
pub proof fn law_traces_are_left_after_success<'a, C, E>(
    handler: Handler<'a, C>,
    events: Seq<Event<E>>,
    i: int,
)
    requires
        handler.phase == Phase::Index,
        handler.awaits_all(events),
        0 <= i < events.len(),
    ensures
        handler.reply_at(events, i) is Exit <==> (events[i] matches Event::Driven(Ok(_))),
        handler.reply_at(events, i) == Action::<'a, C, E>::Return(Ok(())) <==> {
            &&& i == 4
            &&& handler.reply_at(events, 3) is Exit
        },
{
    lemma_position(handler, events, i);
    if i == 4 {
        lemma_position(handler, events, 3);
        lemma_unfold(handler, events, 3);
        lemma_unfold(handler, events, 4);
    }
}

/// Nothing is done for a connection once it is over.
pub proof fn law_nothing_follows_the_end<'a, C, E>(
    handler: Handler<'a, C>,
    events: Seq<Event<E>>,
    i: int,
)
    requires
        handler.phase == Phase::Index,
        handler.awaits_all(events),
        0 <= i < events.len(),
        handler.reply_at(events, i) is Return,
    ensures
        i == events.len() - 1,
{
    lemma_unfold(handler, events, i);
    if i + 1 < events.len() {
        lemma_unfold(handler, events, i + 1);
    }
}

/// Whether `events[i]` takes the handler and what it asks for on, as a call of `step` does.
spec fn moves_on<'a, C, E>(
    states: Seq<Handler<'a, C>>,
    actions: Seq<Action<'a, C, E>>,
    events: Seq<Event<E>>,
    i: int,
) -> bool {
    &&& actions[i].answered_by(events[i])
    &&& states[i].phase == events[i].phase() ==> {
        &&& actions[i + 1] == states[i].reply(events[i])
        &&& states[i + 1] == states[i].after(events[i])
    }
}

proof fn lemma_turn<'a, C, E>(
    states: Seq<Handler<'a, C>>,
    actions: Seq<Action<'a, C, E>>,
    events: Seq<Event<E>>,
    i: int,
)
    requires
        states.len() == actions.len() == events.len() + 1,
        states[0].phase == Phase::Index,
        actions[0] is ReadIndex,
        forall|j: int| 0 <= j < events.len() ==> #[trigger] moves_on(states, actions, events, j),
        0 <= i < actions.len(),
    ensures
        states[i].connections == states[0].connections,
        states[i].conn_id == states[0].conn_id,
        states[i].phase == actions[i].phase(),
        i == 0 <==> actions[i] is ReadIndex,
        actions[i] is Open ==> i == 1,
        actions[i] is Enter ==> i == 2,
        actions[i] is Drive ==> i == 3,
        actions[i] is Exit ==> i == 4,
        i <= 5,
        i > 0 ==> actions[i] == states[i - 1].reply(events[i - 1]) && actions[i - 1].answered_by(
            events[i - 1],
        ),
    decreases i,
{
    if i > 0 {
        lemma_turn(states, actions, events, i - 1);
        assert(moves_on(states, actions, events, i - 1));
    }
}

/// Whatever the number of the connection, its index is read first. A peer that names an index of
/// the scenario has the driver of that very connection set up, the trace entered under the number
/// of the connection, and the driver run, each once. When the driver ends well the trace is left,
/// and the connection ends well. It ends with an error exactly when reading the index failed, the
/// index is past the end, or the driver failed. The handler starts with `new` and goes on with
/// `step`: `calls` is the handler as each call gets it, `states` what it is before and after.
/// Whatever becomes of an operation can be handed in.
pub proof fn law_connections_named_are_driven<'a, C, E>(
    connections: &'a [C],
    conn_id: u64,
    states: Seq<Handler<'a, C>>,
    calls: Seq<&mut Handler<'a, C>>,
    actions: Seq<Action<'a, C, E>>,
    events: Seq<Event<E>>,
    i: int,
)
    requires
        states.len() == actions.len() == events.len() + 1,
        calls.len() == events.len(),
        call_ensures(Handler::<'a, C>::new::<E>, (connections, conn_id), (states[0], actions[0])),
        forall|j: int| 0 <= j < events.len() ==> (#[trigger] actions[j]).answered_by(events[j]),
        forall|j: int|
            #![trigger calls[j]]
            0 <= j < events.len() ==> {
                &&& *calls[j] == states[j]
                &&& *final(calls[j]) == states[j + 1]
                &&& call_requires(Handler::<'a, C>::step::<E>, (calls[j], events[j])) ==> call_ensures(
                    Handler::<'a, C>::step::<E>,
                    (calls[j], events[j]),
                    actions[j + 1],
                )
            },
        0 <= i < actions.len(),
    ensures
        call_requires(Handler::<'a, C>::new::<E>, (connections, conn_id)),
        i < events.len() ==> call_requires(Handler::<'a, C>::step::<E>, (calls[i], events[i])),
        i == 0 ==> actions[i] is ReadIndex,
        i == 1 ==> (events[0] matches Event::Index(named) && match named {
            Ok(server_idx) => {
                let at = server_idx as usize;
                if at < connections@.len() {
                    actions[i] matches Action::Open(found) && *found == connections@[at as int]
                } else {
                    actions[i] matches Action::Return(Err(HandleError::InvalidConnectionId))
                }
            },
            Err(error) => actions[i] == Action::<'a, C, E>::Return(
                Err(HandleError::Outside(error)),
            ),
        }),
        i == 2 ==> (actions[i] matches Action::Enter { conn_id: entered, lane } && entered
            == conn_id && lane == 0),
        i == 3 ==> actions[i] is Drive,
        i == 4 ==> (events[3] matches Event::Driven(driven) && match driven {
            Ok(_) => actions[i] is Exit,
            Err(error) => actions[i] == Action::<'a, C, E>::Return(
                Err(HandleError::Outside(error)),
            ),
        }),
        i == 5 ==> (actions[i] matches Action::Return(Ok(_))),
        i <= 5,
{
    assert forall|j: int| 0 <= j < events.len() implies #[trigger] moves_on(
        states,
        actions,
        events,
        j,
    ) by {
        assert(*calls[j] == states[j]);
        assert(actions[j].answered_by(events[j]));
    }
    lemma_turn(states, actions, events, i);
    if i < events.len() {
        assert(moves_on(states, actions, events, i));
        assert(*calls[i] == states[i]);
    }
    if i > 0 {
        lemma_turn(states, actions, events, i - 1);
    }
}

/// An index gives the connection that stands there, whatever the scenario, and an error exactly
/// where none does.
pub proof fn law_indices_find_what_stands_there<C, E>(
    connections: &[C],
    server_idx: u64,
    found: Result<&C, HandleError<E>>,
)
    requires
        call_ensures(connection::<C, E>, (connections, server_idx), found),
    ensures
        call_requires(connection::<C, E>, (connections, server_idx)),
        ({
            let at = server_idx as usize;
            match found {
                Ok(one) => at < connections@.len() && *one == connections@[at as int],
                Err(error) => at >= connections@.len() && error is InvalidConnectionId,
            }
        }),
{
}

/// A report is the word that starts it and then what is said of the error, unchanged: all of the
/// text of an outside error.
pub proof fn law_reports_hold_the_whole_error(error: HandleError<String>, line: String)
    requires
        call_ensures(HandleError::<String>::report, (&error,), line),
    ensures
        call_requires(HandleError::<String>::report, (&error,)),
        line@.take(7) == seq!['e', 'r', 'r', 'o', 'r', ':', ' '],
        error matches HandleError::Outside(text) ==> line@.skip(7) == text@,
        error is InvalidConnectionId ==> line@.skip(7) == "invalid connection id"@,
{
    reveal_strlit("error: ");
    assert("error: "@ =~= seq!['e', 'r', 'r', 'o', 'r', ':', ' ']);
    assert(line@.take(7) =~= "error: "@);
    assert(line@.skip(7) =~= error.text());
}

} // verus!
