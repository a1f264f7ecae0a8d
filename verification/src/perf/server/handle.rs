//! Handling one request: read it, then respond.

use crate::perf::error::PerfError;
use vstd::prelude::*;

verus! {

/// Where the response goes.
#[derive(Clone, Copy, Debug, PartialEq, Eq, Structural)]
pub enum Reply {
    /// On a stream that the server opens, since the request came on a one-way stream.
    NewStream,
    /// On the stream of the request.
    SameStream,
}

/// How far a request has been handled.
#[derive(Clone, Copy, Debug, PartialEq, Eq, Structural)]
pub enum Phase {
    Read,
    Open,
    Respond,
    Ended,
}

/// What became of the last operation.
pub enum Event<E> {
    /// The request was read, and asks for this many bytes.
    Read(Result<u64, PerfError<E>>),
    Opened(Result<(), E>),
    Responded(Result<(), PerfError<E>>),
}

/// The next operation.
pub enum Action<E> {
    /// Read the request.
    ReadRequest,
    /// Open the stream for the response.
    OpenStream,
    /// Respond with this many bytes.
    Respond { bytes: u64 },
    /// The request is done with.
    Return(Result<(), PerfError<E>>),
}

/// A request being handled.
#[derive(Clone, Copy, Debug, PartialEq, Eq, Structural)]
pub struct Handle {
    pub reply: Reply,
    /// How many bytes the request asks for, once it has been read.
    pub bytes: u64,
    pub phase: Phase,
}

impl<E> Event<E> {
    /// The phase in which the event can come.
    pub open spec fn phase(self) -> Phase {
        match self {
            Event::Read(_) => Phase::Read,
            Event::Opened(_) => Phase::Open,
            Event::Responded(_) => Phase::Respond,
        }
    }
}

impl<E> Action<E> {
    /// The phase in which the operation is awaited.
    pub open spec fn phase(self) -> Phase {
        match self {
            Action::ReadRequest => Phase::Read,
            Action::OpenStream => Phase::Open,
            Action::Respond { .. } => Phase::Respond,
            Action::Return(_) => Phase::Ended,
        }
    }

    /// Whether `event` tells what became of the operation. Nothing comes after the end.
    pub open spec fn answered_by(self, event: Event<E>) -> bool {
        match self {
            Action::ReadRequest => event is Read,
            Action::OpenStream => event is Opened,
            Action::Respond { .. } => event is Responded,
            Action::Return(_) => false,
        }
    }
}

impl Handle {
    /// The operation that follows `event`.
    pub open spec fn next<E>(self, event: Event<E>) -> Action<E> {
        match event {
            Event::Read(Ok(bytes)) => match self.reply {
                Reply::NewStream => Action::OpenStream,
                Reply::SameStream => Action::Respond { bytes },
            },
            Event::Read(Err(error)) => Action::Return(Err(error)),
            Event::Opened(Ok(_)) => Action::Respond { bytes: self.bytes },
            Event::Opened(Err(error)) => Action::Return(Err(PerfError::Outside(error))),
            Event::Responded(result) => Action::Return(result),
        }
    }

    /// The state after `event`.
    pub open spec fn after<E>(self, event: Event<E>) -> Handle {
        Handle {
            reply: self.reply,
            bytes: if let Event::Read(Ok(bytes)) = event {
                bytes
            } else {
                self.bytes
            },
            phase: self.next(event).phase(),
        }
    }

    /// Starts to handle a request.
    pub fn new<E>(reply: Reply) -> (started: (Handle, Action<E>))
        ensures
            started.0 == (Handle { reply, bytes: 0, phase: Phase::Read }),
            started.1 == Action::<E>::ReadRequest,
    {
        (Handle { reply, bytes: 0, phase: Phase::Read }, Action::ReadRequest)
    }

    /// Takes in what became of the last operation and gives the next one.
    pub fn step<E>(&mut self, event: Event<E>) -> (action: Action<E>)
        requires
            old(self).phase == event.phase(),
        ensures
            action == old(self).next(event),
            *final(self) == old(self).after(event),
    {
        match event {
            Event::Read(Ok(bytes)) => {
                self.bytes = bytes;
                match self.reply {
                    Reply::NewStream => {
                        self.phase = Phase::Open;
                        Action::OpenStream
                    },
                    Reply::SameStream => {
                        self.phase = Phase::Respond;
                        Action::Respond { bytes }
                    },
                }
            },
            Event::Read(Err(error)) => {
                self.phase = Phase::Ended;
                Action::Return(Err(error))
            },
            Event::Opened(Ok(_)) => {
                self.phase = Phase::Respond;
                Action::Respond { bytes: self.bytes }
            },
            Event::Opened(Err(error)) => {
                self.phase = Phase::Ended;
                Action::Return(Err(PerfError::Outside(error)))
            },
            Event::Responded(result) => {
                self.phase = Phase::Ended;
                Action::Return(result)
            },
        }
    }

    /// The state after all of `events`, in order.
    pub open spec fn after_all<E>(self, events: Seq<Event<E>>) -> Handle
        decreases events.len(),
    {
        if events.len() == 0 {
            self
        } else {
            self.after_all(events.drop_last()).after(events.last())
        }
    }

    /// Whether every one of `events` can come when the ones before it have.
    pub open spec fn awaits_all<E>(self, events: Seq<Event<E>>) -> bool {
        forall|i: int|
            0 <= i < events.len() ==> #[trigger] self.after_all(events.take(i)).phase
                == events[i].phase()
    }

    /// The operation that follows `events[i]`, when all of `events` come in order.
    pub open spec fn next_at<E>(self, events: Seq<Event<E>>, i: int) -> Action<E> {
        self.after_all(events.take(i)).next(events[i])
    }
}

proof fn lemma_unfold<E>(start: Handle, events: Seq<Event<E>>, i: int)
    requires
        start.awaits_all(events),
        0 <= i < events.len(),
    ensures
        start.after_all(events.take(i)).phase == events[i].phase(),
        start.after_all(events.take(i + 1)) == start.after_all(events.take(i)).after(events[i]),
        start.after_all(events.take(0)) == start,
{
    assert(events.take(i + 1).drop_last() =~= events.take(i));
}

proof fn lemma_order<E>(start: Handle, events: Seq<Event<E>>, i: int)
    requires
        start.phase == Phase::Read,
        start.awaits_all(events),
        0 <= i < events.len(),
    ensures
        start.after_all(events.take(i)).reply == start.reply,
        events[0] is Read,
        i == 0 <==> events[i] is Read,
        i == 1 && start.reply == Reply::NewStream <==> events[i] is Opened,
        i == 2 || i == 1 && start.reply == Reply::SameStream <==> events[i] is Responded,
        i > 0 ==> (events[0] matches Event::Read(Ok(bytes)) && start.after_all(events.take(i)).bytes
            == bytes),
        i > 1 ==> (events[1] matches Event::Opened(Ok(_))),
    decreases i,
{
    lemma_unfold(start, events, i);
    if i > 0 {
        lemma_order(start, events, i - 1);
        lemma_unfold(start, events, i - 1);
    }
}

/// A response is sent only once the request has been read, and is as long as the request asks for.
/// It goes out on a stream of its own exactly when the request came on a one-way stream.
pub proof fn law_responses_are_as_long_as_requested<E>(
    start: Handle,
    events: Seq<Event<E>>,
    i: int,
)
    requires
        start.phase == Phase::Read,
        start.awaits_all(events),
        0 <= i < events.len(),
    ensures
        start.next_at(events, i) matches Action::Respond { bytes } ==> {
            &&& events[0] == Event::<E>::Read(Ok(bytes))
            &&& start.reply == Reply::SameStream ==> i == 0
            &&& start.reply == Reply::NewStream ==> i == 1 && (events[1] matches Event::Opened(
                Ok(_),
            ))
        },
{
    lemma_order(start, events, i);
    lemma_unfold(start, events, i);
}

/// Handling a request ends well exactly when the response did, and nothing follows the end.
pub proof fn law_requests_end_as_their_responses_do<E>(
    start: Handle,
    events: Seq<Event<E>>,
    i: int,
)
    requires
        start.phase == Phase::Read,
        start.awaits_all(events),
        0 <= i < events.len(),
    ensures
        start.next_at(events, i) matches Action::Return(result) ==> {
            &&& i == events.len() - 1
            &&& result is Ok ==> events[i] == Event::<E>::Responded(result)
        },
        events[i] matches Event::Responded(result) ==> start.next_at(events, i) == Action::<
            E,
        >::Return(result),
{
    lemma_unfold(start, events, i);
    if i + 1 < events.len() {
        lemma_unfold(start, events, i + 1);
    }
}

/// Whether `events[i]` takes the request and what it asks for on, as a call of `step` does.
spec fn moves_on<E>(
    states: Seq<Handle>,
    actions: Seq<Action<E>>,
    events: Seq<Event<E>>,
    i: int,
) -> bool {
    &&& actions[i].answered_by(events[i])
    &&& states[i].phase == events[i].phase() ==> {
        &&& actions[i + 1] == states[i].next(events[i])
        &&& states[i + 1] == states[i].after(events[i])
    }
}

proof fn lemma_turn<E>(
    states: Seq<Handle>,
    actions: Seq<Action<E>>,
    events: Seq<Event<E>>,
    i: int,
)
    requires
        states.len() == actions.len() == events.len() + 1,
        states[0].phase == Phase::Read,
        actions[0] is ReadRequest,
        forall|j: int| 0 <= j < events.len() ==> #[trigger] moves_on(states, actions, events, j),
        0 <= i < actions.len(),
    ensures
        states[i].reply == states[0].reply,
        states[i].phase == actions[i].phase(),
        i == 0 <==> actions[i] is ReadRequest,
        actions[i] is OpenStream ==> i == 1 && states[0].reply == Reply::NewStream && events[0]
            == Event::<E>::Read(Ok(states[i].bytes)),
        actions[i] is Respond ==> i == if states[0].reply == Reply::NewStream {
            2int
        } else {
            1int
        },
        i > 0 ==> actions[i] == states[i - 1].next(events[i - 1]) && states[i - 1].phase
            == events[i - 1].phase() && actions[i - 1].answered_by(events[i - 1]),
    decreases i,
{
    if i > 0 {
        lemma_turn(states, actions, events, i - 1);
        assert(moves_on(states, actions, events, i - 1));
    }
}

/// The request is read first. Once it has been read, a response of as many bytes as it asks for is
/// sent next, whatever that number is, but that a stream is opened in between where the request
/// came on a one-way stream. The request ends as its response does, or with the first failure
/// before it, which is passed on as it is. Handling starts with `new` and goes on with `step`:
/// `calls` is the request as each call gets it, `states` what it is before and after. Whatever
/// becomes of an operation can be handed in.
pub proof fn law_a_request_read_gets_its_response_sent<E>(
    reply: Reply,
    states: Seq<Handle>,
    calls: Seq<&mut Handle>,
    actions: Seq<Action<E>>,
    events: Seq<Event<E>>,
    i: int,
)
    requires
        states.len() == actions.len() == events.len() + 1,
        calls.len() == events.len(),
        call_ensures(Handle::new::<E>, (reply,), (states[0], actions[0])),
        forall|j: int| 0 <= j < events.len() ==> (#[trigger] actions[j]).answered_by(events[j]),
        forall|j: int|
            #![trigger calls[j]]
            0 <= j < events.len() ==> {
                &&& *calls[j] == states[j]
                &&& *final(calls[j]) == states[j + 1]
                &&& call_requires(Handle::step::<E>, (calls[j], events[j])) ==> call_ensures(
                    Handle::step::<E>,
                    (calls[j], events[j]),
                    actions[j + 1],
                )
            },
        0 <= i < actions.len(),
    ensures
        call_requires(Handle::new::<E>, (reply,)),
        i < events.len() ==> call_requires(Handle::step::<E>, (calls[i], events[i])),
        i == 0 ==> actions[i] is ReadRequest,
        i == 1 ==> (events[0] matches Event::Read(read) && match read {
            Ok(asked) => if reply is NewStream {
                actions[i] is OpenStream
            } else {
                actions[i] matches Action::Respond { bytes } && bytes == asked
            },
            Err(error) => actions[i] == Action::<E>::Return(Err(error)),
        }),
        i == 2 && reply is NewStream ==> (events[1] matches Event::Opened(opened) && match opened {
            Ok(_) => actions[i] matches Action::Respond { bytes } && events[0] == Event::<E>::Read(
                Ok(bytes),
            ),
            Err(error) => actions[i] == Action::<E>::Return(Err(PerfError::Outside(error))),
        }),
        i == 3 || i == 2 && reply is SameStream ==> (events[i - 1] matches Event::Responded(sent)
            && actions[i] == Action::<E>::Return(sent)),
        i <= 3,
{
    assert forall|j: int| 0 <= j < events.len() implies #[trigger] moves_on(
        states,
        actions,
        events,
        j,
    ) by {
        assert(*calls[j] == states[j]);
        assert(actions[j].answered_by(events[j]));
    }
    lemma_turn(states, actions, events, i);
    if i < events.len() {
        assert(moves_on(states, actions, events, i));
        assert(*calls[i] == states[i]);
    }
    if i > 1 {
        lemma_turn(states, actions, events, i - 1);
    }
    if i > 2 {
        lemma_turn(states, actions, events, i - 2);
    }
}

} // verus!
