//! Reading a request.

use crate::perf::buffer::contents;
use crate::perf::error::PerfError;
use crate::perf::wire::{
    big_endian, header, law_any_eight_bytes_are_a_header, requested_bytes, HEADER_LEN,
};
use bytes::Bytes;
use vstd::prelude::*;

verus! {

/// What became of the last operation.
pub enum Event<E> {
    /// The first buffer of the request came, or the request ended without one (`None`).
    Header(Result<Option<Bytes>, E>),
    /// More of the request came, and whether its stream is still open.
    Received(Result<bool, E>),
}

/// The next operation.
pub enum Action<E> {
    /// Receive the first buffer of the request.
    ReceiveHeader,
    /// Receive more of the request and drop it.
    Receive,
    /// The request is over. It asks for this many bytes.
    Return(Result<u64, PerfError<E>>),
}

/// How far a request has been read.
#[derive(Clone, Copy, Debug, PartialEq, Eq, Structural)]
pub enum ReadReq {
    Header,
    /// The header asks for this many bytes.
    Drain { bytes: u64 },
    Ended,
}

impl ReadReq {
    /// Whether `event` can come now. The first buffer is the header, no more and no less.
    pub open spec fn awaits<E>(self, event: Event<E>) -> bool {
        match event {
            Event::Header(received) => {
                &&& self is Header
                &&& received matches Ok(Some(buffer)) ==> contents(buffer).len() == HEADER_LEN
            },
            Event::Received(_) => self is Drain,
        }
    }

    /// The operation that follows `event`.
    pub open spec fn reply<E>(self, event: Event<E>) -> Action<E> {
        match event {
            Event::Header(Ok(Some(_))) => Action::Receive,
            Event::Header(Ok(None)) => Action::Return(Err(PerfError::NoRequest)),
            Event::Header(Err(error)) => Action::Return(Err(PerfError::ReadingRequest(error))),
            Event::Received(Ok(true)) => Action::Receive,
            Event::Received(Ok(false)) => Action::Return(Ok(self->bytes)),
            Event::Received(Err(error)) => Action::Return(Err(PerfError::Outside(error))),
        }
    }

    /// The state after `event`.
    pub open spec fn after<E>(self, event: Event<E>) -> ReadReq {
        match event {
            Event::Header(Ok(Some(buffer))) => ReadReq::Drain {
                bytes: big_endian(contents(buffer)) as u64,
            },
            Event::Received(Ok(true)) => self,
            _ => ReadReq::Ended,
        }
    }

    /// Starts to read a request.
    pub fn new<E>() -> (started: (ReadReq, Action<E>))
        ensures
            started.0 == ReadReq::Header,
            started.1 == Action::<E>::ReceiveHeader,
    {
        (ReadReq::Header, Action::ReceiveHeader)
    }

    /// Takes in what became of the last operation and gives the next one.
    pub fn step<E>(&mut self, event: Event<E>) -> (action: Action<E>)
        requires
            old(self).awaits(event),
        ensures
            action == old(self).reply(event),
            *final(self) == old(self).after(event),
    {
        match event {
            Event::Header(Ok(Some(buffer))) => {
                *self = ReadReq::Drain { bytes: requested_bytes(&buffer) };
                Action::Receive
            },
            Event::Header(Ok(None)) => {
                *self = ReadReq::Ended;
                Action::Return(Err(PerfError::NoRequest))
            },
            Event::Header(Err(error)) => {
                *self = ReadReq::Ended;
                Action::Return(Err(PerfError::ReadingRequest(error)))
            },
            Event::Received(Ok(is_open)) => match *self {
                ReadReq::Drain { bytes } if !is_open => {
                    *self = ReadReq::Ended;
                    Action::Return(Ok(bytes))
                },
                _ => Action::Receive,
            },
            Event::Received(Err(error)) => {
                *self = ReadReq::Ended;
                Action::Return(Err(PerfError::Outside(error)))
            },
        }
    }

    /// The state after all of `events`, in order.
    pub open spec fn after_all<E>(self, events: Seq<Event<E>>) -> ReadReq
        decreases events.len(),
    {
        if events.len() == 0 {
            self
        } else {
            self.after_all(events.drop_last()).after(events.last())
        }
    }

    /// Whether every one of `events` can come when the ones before it have.
    pub open spec fn awaits_all<E>(self, events: Seq<Event<E>>) -> bool {
        forall|i: int|
            0 <= i < events.len() ==> #[trigger] self.after_all(events.take(i)).awaits(events[i])
    }

    /// The operation that follows `events[i]`, when all of `events` come in order.
    pub open spec fn reply_at<E>(self, events: Seq<Event<E>>, i: int) -> Action<E> {
        self.after_all(events.take(i)).reply(events[i])
    }
}

proof fn lemma_drains<E>(events: Seq<Event<E>>, i: int)
    requires
        ReadReq::Header.awaits_all(events),
        0 < i < events.len(),
    ensures
        events[0] matches Event::Header(Ok(Some(buffer))) && ReadReq::Header.after_all(
            events.take(i),
        ) == (ReadReq::Drain { bytes: big_endian(contents(buffer)) as u64 }),
        events[i] is Received,
        forall|j: int| 0 < j < i ==> (#[trigger] events[j] matches Event::Received(Ok(true))),
    decreases i,
{
    assert(ReadReq::Header.after_all(events.take(i)).awaits(events[i]));
    assert(events.take(i).drop_last() =~= events.take(i - 1));
    assert(ReadReq::Header.after_all(events.take(i - 1)).awaits(events[i - 1]));
    if i > 1 {
        lemma_drains(events, i - 1);
        assert(events[i - 1] matches Event::Received(Ok(true)));
    } else {
        assert(events.take(0).len() == 0);
    }
}

/// Reading a request ends well exactly when its header was read and then its stream to the end,
/// and it gives the number that the header spells: the number that the client put there.
pub proof fn law_requests_are_read_to_the_end<E>(events: Seq<Event<E>>, i: int)
    requires
        ReadReq::Header.awaits_all(events),
        0 <= i < events.len(),
    ensures
        ReadReq::Header.reply_at(events, i) matches Action::Return(result) ==> (match result {
            Ok(bytes) => {
                &&& events[0] matches Event::Header(Ok(Some(buffer))) && contents(buffer)
                    == header(bytes)
                &&& forall|j: int|
                    0 < j < i ==> (#[trigger] events[j] matches Event::Received(Ok(true)))
                &&& events[i] matches Event::Received(Ok(false))
            },
            Err(PerfError::NoRequest) => events[i] matches Event::Header(Ok(None)),
            Err(PerfError::ReadingRequest(error)) => events[i] == Event::<E>::Header(Err(error)),
            Err(PerfError::Outside(error)) => events[i] == Event::<E>::Received(Err(error)),
            Err(_) => false,
        }),
        events[i] matches Event::Received(Ok(false)) ==> (ReadReq::Header.reply_at(
            events,
            i,
        ) matches Action::Return(Ok(_))),
{
    assert(ReadReq::Header.after_all(events.take(i)).awaits(events[i]));
    if i > 0 {
        lemma_drains(events, i);
        assert(events.take(0).len() == 0);
        assert(ReadReq::Header.after_all(events.take(0)).awaits(events[0]));
        if let Event::Header(Ok(Some(buffer))) = events[0] {
            law_any_eight_bytes_are_a_header(contents(buffer));
        }
    } else {
        assert(events.take(0).len() == 0);
    }
}

impl<E> Action<E> {
    /// Whether `event` tells what became of the operation. Nothing comes after the end.
    pub open spec fn answered_by(self, event: Event<E>) -> bool {
        match self {
            Action::ReceiveHeader => event is Header,
            Action::Receive => event is Received,
            Action::Return(_) => false,
        }
    }
}

/// Whether `events[i]` takes the reader and what it asks for on, as a call of `step` does.
spec fn moves_on<E>(
    states: Seq<ReadReq>,
    actions: Seq<Action<E>>,
    events: Seq<Event<E>>,
    i: int,
) -> bool {
    &&& actions[i].answered_by(events[i])
    &&& states[i].awaits(events[i]) ==> {
        &&& actions[i + 1] == states[i].reply(events[i])
        &&& states[i + 1] == states[i].after(events[i])
    }
}

proof fn lemma_turn<E>(
    states: Seq<ReadReq>,
    actions: Seq<Action<E>>,
    events: Seq<Event<E>>,
    i: int,
)
    requires
        states.len() == actions.len() == events.len() + 1,
        states[0] == ReadReq::Header,
        actions[0] is ReceiveHeader,
        forall|j: int| 0 <= j < events.len() ==> #[trigger] moves_on(states, actions, events, j),
        events.len() > 0 ==> (events[0] matches Event::Header(Ok(Some(buffer))) ==> contents(
            buffer,
        ).len() == HEADER_LEN),
        0 <= i < actions.len(),
    ensures
        i == 0 <==> actions[i] is ReceiveHeader,
        actions[i] is Receive ==> (events[0] matches Event::Header(Ok(Some(buffer))) && states[i]
            == (ReadReq::Drain { bytes: big_endian(contents(buffer)) as u64 })),
        i > 0 ==> actions[i] == states[i - 1].reply(events[i - 1]) && actions[i - 1].answered_by(
            events[i - 1],
        ),
    decreases i,
{
    if i > 0 {
        lemma_turn(states, actions, events, i - 1);
        assert(moves_on(states, actions, events, i - 1));
    }
}

/// The header is received first, and then the rest of the request for as long as its stream is
/// open. A request that was read to its end gives the number of bytes that its header asks for: the
/// header of a request for that number is the very bytes that came. It fails exactly when there is
/// no header or receiving fails, with the error of that. Reading starts with `new` and goes on with
/// `step`: `calls` is the reader as each call gets it, `states` what it is before and after.
/// Whatever becomes of an operation can be handed in, if the first buffer is as long as a header.
pub proof fn law_requests_give_what_their_headers_ask_for<E>(
    states: Seq<ReadReq>,
    calls: Seq<&mut ReadReq>,
    actions: Seq<Action<E>>,
    events: Seq<Event<E>>,
    i: int,
)
    requires
        events.len() > 0 ==> (events[0] matches Event::Header(Ok(Some(buffer))) ==> contents(
            buffer,
        ).len() == 8),
        states.len() == actions.len() == events.len() + 1,
        calls.len() == events.len(),
        call_ensures(ReadReq::new::<E>, (), (states[0], actions[0])),
        forall|j: int| 0 <= j < events.len() ==> (#[trigger] actions[j]).answered_by(events[j]),
        forall|j: int|
            #![trigger calls[j]]
            0 <= j < events.len() ==> {
                &&& *calls[j] == states[j]
                &&& *final(calls[j]) == states[j + 1]
                &&& call_requires(ReadReq::step::<E>, (calls[j], events[j])) ==> call_ensures(
                    ReadReq::step::<E>,
                    (calls[j], events[j]),
                    actions[j + 1],
                )
            },
        0 <= i < actions.len(),
    ensures
        call_requires(ReadReq::new::<E>, ()),
        i < events.len() ==> call_requires(ReadReq::step::<E>, (calls[i], events[i])),
        i == 0 ==> actions[i] is ReceiveHeader,
        i == 1 ==> (events[0] matches Event::Header(received) && match received {
            Ok(Some(_)) => actions[i] is Receive,
            Ok(None) => actions[i] == Action::<E>::Return(Err(PerfError::NoRequest)),
            Err(error) => actions[i] == Action::<E>::Return(Err(PerfError::ReadingRequest(error))),
        }),
        i > 1 ==> (events[i - 1] matches Event::Received(received) && match received {
            Ok(is_open) => if is_open {
                actions[i] is Receive
            } else {
                &&& actions[i] matches Action::Return(Ok(bytes))
                &&& events[0] matches Event::Header(Ok(Some(buffer)))
                &&& contents(buffer) == header(bytes)
                &&& bytes == big_endian(contents(buffer))
            },
            Err(error) => actions[i] == Action::<E>::Return(Err(PerfError::Outside(error))),
        }),
{
    assert forall|j: int| 0 <= j < events.len() implies #[trigger] moves_on(
        states,
        actions,
        events,
        j,
    ) by {
        assert(*calls[j] == states[j]);
        assert(actions[j].answered_by(events[j]));
    }
    lemma_turn(states, actions, events, i);
    if i < events.len() {
        assert(moves_on(states, actions, events, i));
        assert(*calls[i] == states[i]);
    }
    if i > 0 {
        lemma_turn(states, actions, events, i - 1);
        if let Event::Header(Ok(Some(buffer))) = events[0] {
            law_any_eight_bytes_are_a_header(contents(buffer));
        }
    }
}

} // verus!
