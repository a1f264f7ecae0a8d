//! One request and its response.

use crate::perf::error::{Failed, PerfError};
use vstd::prelude::*;

verus! {

/// Where the response comes from.
#[derive(Clone, Copy, Debug, PartialEq, Eq, Structural)]
pub enum Response {
    /// From the next stream that the server opens, since the request went out on a one-way stream.
    NextStream,
    /// From the stream of the request.
    SameStream,
}

impl Response {
    /// What an error of the exchange is reported to have put an end to.
    pub fn failed(self) -> (failed: Failed)
        ensures
            failed == match self {
                Response::NextStream => Failed::SendingRequest,
                Response::SameStream => Failed::Request,
            },
    {
        match self {
            Response::NextStream => Failed::SendingRequest,
            Response::SameStream => Failed::Request,
        }
    }
}

/// How far the exchange has come.
#[derive(Clone, Copy, Debug, PartialEq, Eq, Structural)]
pub enum Phase {
    Request,
    Accept,
    Drain,
    Ended,
}

/// What became of the last operation.
pub enum Event<E> {
    Requested(Result<(), PerfError<E>>),
    /// The server opened a stream (`true`), or the connection is closed (`false`).
    Accepted(Result<bool, E>),
    Drained(Result<(), PerfError<E>>),
}

/// The next operation.
pub enum Action<E> {
    /// Send the request.
    Request,
    /// Wait for the server to open a stream.
    Accept,
    /// Read the response to its end.
    Drain,
    /// The exchange is over.
    Return(Result<(), PerfError<E>>),
}

/// An exchange in progress.
#[derive(Clone, Copy, Debug, PartialEq, Eq, Structural)]
pub struct Exchange {
    pub response: Response,
    pub phase: Phase,
}

impl<E> Event<E> {
    /// The phase in which the event can come.
    pub open spec fn phase(self) -> Phase {
        match self {
            Event::Requested(_) => Phase::Request,
            Event::Accepted(_) => Phase::Accept,
            Event::Drained(_) => Phase::Drain,
        }
    }
}

impl<E> Action<E> {
    /// The phase in which the operation is awaited.
    pub open spec fn phase(self) -> Phase {
        match self {
            Action::Request => Phase::Request,
            Action::Accept => Phase::Accept,
            Action::Drain => Phase::Drain,
            Action::Return(_) => Phase::Ended,
        }
    }

    /// Whether `event` tells what became of the operation. Nothing comes after the end.
    pub open spec fn answered_by(self, event: Event<E>) -> bool {
        match self {
            Action::Request => event is Requested,
            Action::Accept => event is Accepted,
            Action::Drain => event is Drained,
            Action::Return(_) => false,
        }
    }
}

impl Exchange {
    /// The operation that follows `event`.
    pub open spec fn next<E>(self, event: Event<E>) -> Action<E> {
        match event {
            Event::Requested(Ok(_)) => match self.response {
                Response::NextStream => Action::Accept,
                Response::SameStream => Action::Drain,
            },
            Event::Requested(Err(error)) => Action::Return(Err(error)),
            Event::Accepted(Ok(true)) => Action::Drain,
            Event::Accepted(Ok(false)) => Action::Return(Err(PerfError::StreamClosed)),
            Event::Accepted(Err(error)) => Action::Return(Err(PerfError::Outside(error))),
            Event::Drained(result) => Action::Return(result),
        }
    }

    /// The state after `event`.
    pub open spec fn after<E>(self, event: Event<E>) -> Exchange {
        Exchange { response: self.response, phase: self.next(event).phase() }
    }

    /// Starts an exchange.
    pub fn new<E>(response: Response) -> (started: (Exchange, Action<E>))
        ensures
            started.0 == (Exchange { response, phase: Phase::Request }),
            started.1 == Action::<E>::Request,
    {
        (Exchange { response, phase: Phase::Request }, Action::Request)
    }

    /// Takes in what became of the last operation and gives the next one.
    pub fn step<E>(&mut self, event: Event<E>) -> (action: Action<E>)
        requires
            old(self).phase == event.phase(),
        ensures
            action == old(self).next(event),
            *final(self) == old(self).after(event),
    {
        match event {
            Event::Requested(Ok(_)) => match self.response {
                Response::NextStream => {
                    self.phase = Phase::Accept;
                    Action::Accept
                },
                Response::SameStream => {
                    self.phase = Phase::Drain;
                    Action::Drain
                },
            },
            Event::Accepted(Ok(true)) => {
                self.phase = Phase::Drain;
                Action::Drain
            },
            Event::Accepted(Ok(false)) => {
                self.phase = Phase::Ended;
                Action::Return(Err(PerfError::StreamClosed))
            },
            Event::Accepted(Err(error)) => {
                self.phase = Phase::Ended;
                Action::Return(Err(PerfError::Outside(error)))
            },
            Event::Requested(Err(error)) => {
                self.phase = Phase::Ended;
                Action::Return(Err(error))
            },
            Event::Drained(result) => {
                self.phase = Phase::Ended;
                Action::Return(result)
            },
        }
    }

    /// The state after all of `events`, in order.
    pub open spec fn after_all<E>(self, events: Seq<Event<E>>) -> Exchange
        decreases events.len(),
    {
        if events.len() == 0 {
            self
        } else {
            self.after_all(events.drop_last()).after(events.last())
        }
    }

    /// Whether every one of `events` can come when the ones before it have.
    pub open spec fn awaits_all<E>(self, events: Seq<Event<E>>) -> bool {
        forall|i: int|
            0 <= i < events.len() ==> #[trigger] self.after_all(events.take(i)).phase
                == events[i].phase()
    }

    /// The operation that follows `events[i]`, when all of `events` come in order.
    pub open spec fn next_at<E>(self, events: Seq<Event<E>>, i: int) -> Action<E> {
        self.after_all(events.take(i)).next(events[i])
    }
}

proof fn lemma_unfold<E>(start: Exchange, events: Seq<Event<E>>, i: int)
    requires
        start.awaits_all(events),
        0 <= i < events.len(),
    ensures
        start.after_all(events.take(i)).phase == events[i].phase(),
        start.after_all(events.take(i + 1)) == start.after_all(events.take(i)).after(events[i]),
        start.after_all(events.take(0)) == start,
{
    assert(events.take(i + 1).drop_last() =~= events.take(i));
}

/// The parts of an exchange come in one order: the request is sent, then, if the response comes on
/// a stream of its own, that stream is waited for, and then the response is read. Each part starts
/// only when the one before it went well.
pub proof fn law_parts_come_in_order<E>(start: Exchange, events: Seq<Event<E>>, i: int)
    requires
        start.phase == Phase::Request,
        start.awaits_all(events),
        0 <= i < events.len(),
    ensures
        start.after_all(events.take(i)).response == start.response,
        i == 0 <==> events[i] is Requested,
        i == 1 && start.response == Response::NextStream <==> events[i] is Accepted,
        i == 2 || i == 1 && start.response == Response::SameStream <==> events[i] is Drained,
        i > 0 ==> (events[0] matches Event::Requested(Ok(_))),
        i > 1 ==> (events[1] matches Event::Accepted(Ok(true))),
    decreases i,
{
    lemma_unfold(start, events, i);
    if i > 0 {
        law_parts_come_in_order(start, events, i - 1);
        lemma_unfold(start, events, i - 1);
    }
}

/// An exchange ends well exactly when its response was read to the end, and nothing follows the
/// end. A connection that closes before the response is an error.
pub proof fn law_exchanges_end_as_their_responses_do<E>(
    start: Exchange,
    events: Seq<Event<E>>,
    i: int,
)
    requires
        start.phase == Phase::Request,
        start.awaits_all(events),
        0 <= i < events.len(),
    ensures
        start.next_at(events, i) matches Action::Return(result) ==> {
            &&& i == events.len() - 1
            &&& result is Ok ==> events[i] == Event::<E>::Drained(result)
        },
        events[i] matches Event::Drained(result) ==> start.next_at(events, i) == Action::<
            E,
        >::Return(result),
        events[i] matches Event::Accepted(Ok(false)) ==> start.next_at(events, i) == Action::<
            E,
        >::Return(Err(PerfError::StreamClosed)),
{
    lemma_unfold(start, events, i);
    if i + 1 < events.len() {
        lemma_unfold(start, events, i + 1);
    }
}

/// Whether `events[i]` takes the exchange and what it asks for on, as a call of `step` does.
spec fn moves_on<E>(
    states: Seq<Exchange>,
    actions: Seq<Action<E>>,
    events: Seq<Event<E>>,
    i: int,
) -> bool {
    &&& actions[i].answered_by(events[i])
    &&& states[i].phase == events[i].phase() ==> {
        &&& actions[i + 1] == states[i].next(events[i])
        &&& states[i + 1] == states[i].after(events[i])
    }
}

proof fn lemma_turn<E>(
    states: Seq<Exchange>,
    actions: Seq<Action<E>>,
    events: Seq<Event<E>>,
    i: int,
)
    requires
        states.len() == actions.len() == events.len() + 1,
        states[0].phase == Phase::Request,
        actions[0] is Request,
        forall|j: int| 0 <= j < events.len() ==> #[trigger] moves_on(states, actions, events, j),
        0 <= i < actions.len(),
    ensures
        states[i].response == states[0].response,
        states[i].phase == actions[i].phase(),
        i == 0 <==> actions[i] is Request,
        actions[i] is Accept ==> i == 1 && states[0].response == Response::NextStream,
        actions[i] is Drain ==> i == if states[0].response == Response::NextStream {
            2int
        } else {
            1int
        },
        i > 0 ==> actions[i] == states[i - 1].next(events[i - 1]) && states[i - 1].phase
            == events[i - 1].phase() && actions[i - 1].answered_by(events[i - 1]),
    decreases i,
{
    if i > 0 {
        lemma_turn(states, actions, events, i - 1);
        assert(moves_on(states, actions, events, i - 1));
    }
}

/// The request is sent first, whatever the exchange. Once it has been sent, the response is read; a
/// response that comes on a stream of its own is waited for in between. The exchange ends as the
/// response does, or with the first failure before it, which is passed on as it is. The exchange
/// starts with `new` and goes on with `step`: `calls` is the exchange as each call gets it, `states`
/// what it is before and after. Whatever becomes of an operation can be handed in.
pub proof fn law_a_request_sent_gets_its_response_read<E>(
    response: Response,
    states: Seq<Exchange>,
    calls: Seq<&mut Exchange>,
    actions: Seq<Action<E>>,
    events: Seq<Event<E>>,
    i: int,
)
    requires
        states.len() == actions.len() == events.len() + 1,
        calls.len() == events.len(),
        call_ensures(Exchange::new::<E>, (response,), (states[0], actions[0])),
        forall|j: int| 0 <= j < events.len() ==> (#[trigger] actions[j]).answered_by(events[j]),
        forall|j: int|
            #![trigger calls[j]]
            0 <= j < events.len() ==> {
                &&& *calls[j] == states[j]
                &&& *final(calls[j]) == states[j + 1]
                &&& call_requires(Exchange::step::<E>, (calls[j], events[j])) ==> call_ensures(
                    Exchange::step::<E>,
                    (calls[j], events[j]),
                    actions[j + 1],
                )
            },
        0 <= i < actions.len(),
    ensures
        call_requires(Exchange::new::<E>, (response,)),
        i < events.len() ==> call_requires(Exchange::step::<E>, (calls[i], events[i])),
        i == 0 ==> actions[i] is Request,
        i == 1 ==> (events[0] matches Event::Requested(sent) && match sent {
            Ok(_) => if response is NextStream {
                actions[i] is Accept
            } else {
                actions[i] is Drain
            },
            Err(_) => actions[i] == Action::<E>::Return(sent),
        }),
        i == 2 && response is NextStream ==> (events[1] matches Event::Accepted(accepted)
            && match accepted {
            Ok(opened) => if opened {
                actions[i] is Drain
            } else {
                actions[i] == Action::<E>::Return(Err(PerfError::StreamClosed))
            },
            Err(error) => actions[i] == Action::<E>::Return(Err(PerfError::Outside(error))),
        }),
        i == 3 || i == 2 && response is SameStream ==> (events[i - 1] matches Event::Drained(drained)
            && actions[i] == Action::<E>::Return(drained)),
        i <= 3,
{
    assert forall|j: int| 0 <= j < events.len() implies #[trigger] moves_on(
        states,
        actions,
        events,
        j,
    ) by {
        assert(*calls[j] == states[j]);
        assert(actions[j].answered_by(events[j]));
    }
    lemma_turn(states, actions, events, i);
    if i < events.len() {
        assert(moves_on(states, actions, events, i));
        assert(*calls[i] == states[i]);
    }
    if i > 1 {
        lemma_turn(states, actions, events, i - 1);
    }
    if i > 2 {
        lemma_turn(states, actions, events, i - 2);
    }
}

/// Whatever went wrong with an exchange, the line that reports it starts with what the exchange was
/// about, and then holds all of what is said of the error.
pub proof fn law_failures_are_reported_by_the_way_of_the_response(
    response: Response,
    failed: Failed,
    error: PerfError<String>,
    message: String,
    line: String,
)
    requires
        call_ensures(Response::failed, (response,), failed),
        call_ensures(PerfError::<String>::message, (&error,), message),
        call_ensures(PerfError::<String>::report, (&error, failed), line),
    ensures
        call_requires(Response::failed, (response,)),
        call_requires(PerfError::<String>::message, (&error,)),
        call_requires(PerfError::<String>::report, (&error, failed)),
        match response {
            Response::NextStream => line@ == "sending request failed: "@ + message@,
            Response::SameStream => line@ == "request failed: "@ + message@,
        },
{
}

} // verus!
