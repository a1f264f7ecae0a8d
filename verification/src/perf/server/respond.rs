//! Sending a response.

use crate::perf::buffer::contents;
use crate::perf::data::{chunk_len, chunks, filling, lemma_filling_joins, Data, CHUNK_LEN};
use crate::perf::error::PerfError;
use bytes::Bytes;
use vstd::prelude::*;

verus! {

/// What became of the last operation: a chunk was sent, or sending it failed.
pub enum Event<E> {
    Sent(Result<(), E>),
}

/// The next operation.
pub enum Action<E> {
    /// Send this chunk.
    Send(Bytes),
    /// The response is over.
    Return(Result<(), PerfError<E>>),
}

/// A response in progress.
pub struct Respond<'a> {
    pub data: &'a Data,
    /// The number of bytes that have not been sent yet.
    pub remaining: u64,
    /// Whether the response is over.
    pub ended: bool,
}

impl<'a> Respond<'a> {
    /// The response before any of its `bytes` bytes are sent.
    pub open spec fn start(data: &'a Data, bytes: u64) -> Respond<'a> {
        Respond { data, remaining: bytes, ended: bytes == 0 }
    }

    /// Whether `action` goes on with the response: it sends the next chunk, if there is one.
    pub open spec fn goes_on<E>(self, action: Action<E>) -> bool {
        if self.remaining == 0 {
            self.ended && action == Action::<E>::Return(Ok(()))
        } else {
            &&& !self.ended
            &&& action matches Action::Send(chunk) && contents(chunk) == self.pending()
        }
    }

    /// The chunk that is being sent.
    pub open spec fn pending(self) -> Seq<u8> {
        filling(chunk_len(self.remaining as nat))
    }

    /// The state after `event`.
    pub open spec fn after<E>(self, event: Event<E>) -> Respond<'a> {
        match event {
            Event::Sent(Ok(_)) => {
                let remaining = (self.remaining - chunk_len(self.remaining as nat)) as u64;
                Respond { data: self.data, remaining, ended: remaining == 0 }
            },
            Event::Sent(Err(_)) => Respond {
                data: self.data,
                remaining: self.remaining,
                ended: true,
            },
        }
    }

    /// Starts a response of `bytes` bytes.
    pub fn new<E>(data: &'a Data, bytes: u64) -> (started: (Respond<'a>, Action<E>))
        ensures
            started.0 == Respond::start(data, bytes),
            started.0.goes_on(started.1),
    {
        let respond = Respond { data, remaining: bytes, ended: bytes == 0 };
        let action = respond.go_on();
        (respond, action)
    }

    fn go_on<E>(&self) -> (action: Action<E>)
        requires
            self.ended == (self.remaining == 0),
        ensures
            self.goes_on(action),
    {
        if self.remaining == 0 {
            Action::Return(Ok(()))
        } else {
            Action::Send(self.data.next_chunk(self.remaining))
        }
    }

    /// Takes in what became of the last operation and gives the next one.
    pub fn step<E>(&mut self, event: Event<E>) -> (action: Action<E>)
        requires
            !old(self).ended,
        ensures
            *final(self) == old(self).after(event),
            match event {
                Event::Sent(Ok(_)) => final(self).goes_on(action),
                Event::Sent(Err(error)) => action == Action::<E>::Return(
                    Err(PerfError::SendingResponse(error)),
                ),
            },
    {
        match event {
            Event::Sent(Ok(_)) => {
                let sent: u64 = if self.remaining < CHUNK_LEN {
                    self.remaining
                } else {
                    CHUNK_LEN
                };
                self.remaining = self.remaining - sent;
                self.ended = self.remaining == 0;
                self.go_on()
            },
            Event::Sent(Err(error)) => {
                self.ended = true;
                Action::Return(Err(PerfError::SendingResponse(error)))
            },
        }
    }

    /// The state after all of `events`, in order.
    pub open spec fn after_all<E>(self, events: Seq<Event<E>>) -> Respond<'a>
        decreases events.len(),
    {
        if events.len() == 0 {
            self
        } else {
            self.after_all(events.drop_last()).after(events.last())
        }
    }

    /// Whether every one of `events` comes while the response is not over.
    pub open spec fn awaits_all<E>(self, events: Seq<Event<E>>) -> bool {
        forall|i: int| 0 <= i < events.len() ==> !(#[trigger] self.after_all(events.take(i))).ended
    }

    /// The bytes that have been sent when all of `events` have come, in order.
    pub open spec fn sent<E>(self, events: Seq<Event<E>>) -> Seq<u8>
        decreases events.len(),
    {
        if events.len() == 0 {
            Seq::empty()
        } else {
            self.sent(events.drop_last()) + match events.last() {
                Event::Sent(Ok(_)) => self.after_all(events.drop_last()).pending(),
                Event::Sent(Err(_)) => Seq::empty(),
            }
        }
    }
}

/// Whether no sending failed.
pub open spec fn all_sent<E>(events: Seq<Event<E>>) -> bool {
    forall|i: int| 0 <= i < events.len() ==> (#[trigger] events[i] matches Event::Sent(Ok(_)))
}

/// At any time the peer has been sent filling, and as much of it as is no longer left to send.
pub proof fn law_sent_and_remaining_add_up<'a, E>(respond: Respond<'a>, events: Seq<Event<E>>)
    ensures
        respond.after_all(events).remaining <= respond.remaining,
        respond.sent(events) == filling(
            (respond.remaining - respond.after_all(events).remaining) as nat,
        ),
    decreases events.len(),
{
    if events.len() > 0 {
        law_sent_and_remaining_add_up(respond, events.drop_last());
        let before = respond.after_all(events.drop_last());
        lemma_filling_joins(
            (respond.remaining - before.remaining) as nat,
            chunk_len(before.remaining as nat),
        );
        if events.last() matches Event::Sent(Err(_)) {
            assert(respond.sent(events) =~= respond.sent(events.drop_last()));
        }
    } else {
        assert(filling(0) =~= Seq::<u8>::empty());
    }
}

proof fn lemma_progress<'a, E>(respond: Respond<'a>, events: Seq<Event<E>>)
    requires
        respond.ended == (respond.remaining == 0),
        respond.awaits_all(events),
        all_sent(events),
    ensures
        respond.after_all(events).ended == (respond.after_all(events).remaining == 0),
        chunks(respond.remaining as nat).len() == events.len() + chunks(
            respond.after_all(events).remaining as nat,
        ).len(),
    decreases events.len(),
{
    if events.len() > 0 {
        let front = events.drop_last();
        assert forall|i: int| 0 <= i < front.len() implies !(#[trigger] respond.after_all(
            front.take(i),
        )).ended by {
            assert(front.take(i) =~= events.take(i));
        }
        lemma_progress(respond, front);
        assert(events.take(events.len() - 1) =~= front);
        assert(events[events.len() - 1] matches Event::Sent(Ok(_)));
    }
}

/// A response to a request for `bytes` bytes ends well exactly when the peer has been sent `bytes`
/// bytes of filling, and that takes one sending for every chunk.
pub proof fn law_responses_are_complete<'a, E>(
    data: &'a Data,
    bytes: u64,
    events: Seq<Event<E>>,
)
    requires
        Respond::start(data, bytes).awaits_all(events),
        all_sent(events),
    ensures
        ({
            let start = Respond::start(data, bytes);
            &&& start.after_all(events).ended <==> start.sent(events) == filling(bytes as nat)
            &&& start.after_all(events).ended <==> events.len() == chunks(bytes as nat).len()
        }),
{
    let start = Respond::start(data, bytes);
    let end = start.after_all(events);
    law_sent_and_remaining_add_up(start, events);
    lemma_progress(start, events);
    assert(filling((bytes - end.remaining) as nat).len() == bytes - end.remaining);
    assert(filling(bytes as nat).len() == bytes);
}

impl<E> Action<E> {
    /// Whether `event` tells what became of the operation. Nothing comes after the end.
    pub open spec fn answered_by(self, event: Event<E>) -> bool {
        self is Send && event is Sent
    }
}

/// What the first `n` of `actions` hand over to be sent, joined.
pub open spec fn handed_over<E>(actions: Seq<Action<E>>, n: int) -> Seq<u8>
    decreases n,
{
    if n <= 0 {
        Seq::empty()
    } else {
        handed_over(actions, n - 1) + match actions[n - 1] {
            Action::Send(chunk) => contents(chunk),
            Action::Return(_) => Seq::empty(),
        }
    }
}

/// Whether `events[i]` takes the response and what it asks for on, as a call of `step` does.
spec fn moves_on<'a, E>(
    states: Seq<Respond<'a>>,
    actions: Seq<Action<E>>,
    events: Seq<Event<E>>,
    i: int,
) -> bool {
    &&& actions[i].answered_by(events[i])
    &&& !states[i].ended ==> {
        &&& states[i + 1] == states[i].after(events[i])
        &&& match events[i] {
            Event::Sent(Ok(_)) => states[i + 1].goes_on(actions[i + 1]),
            Event::Sent(Err(error)) => actions[i + 1] == Action::<E>::Return(
                Err(PerfError::SendingResponse(error)),
            ),
        }
    }
}

proof fn lemma_turn<'a, E>(
    bytes: u64,
    states: Seq<Respond<'a>>,
    actions: Seq<Action<E>>,
    events: Seq<Event<E>>,
    i: int,
)
    requires
        states.len() == actions.len() == events.len() + 1,
        states[0] == Respond::start(states[0].data, bytes),
        states[0].goes_on(actions[0]),
        forall|j: int| 0 <= j < events.len() ==> #[trigger] moves_on(states, actions, events, j),
        0 <= i < actions.len(),
    ensures
        states[i].remaining <= bytes,
        states[i].ended == actions[i] is Return,
        match actions[i] {
            Action::Send(_) => {
                &&& states[i].goes_on(actions[i])
                &&& handed_over(actions, i) == filling((bytes - states[i].remaining) as nat)
            },
            Action::Return(Ok(_)) => handed_over(actions, i) == filling(bytes as nat),
            Action::Return(Err(_)) => exists|len: nat|
                len <= bytes && handed_over(actions, i) == #[trigger] filling(len),
        },
        i > 0 ==> actions[i - 1].answered_by(events[i - 1]),
        i > 0 ==> (events[i - 1] matches Event::Sent(Err(error)) ==> actions[i] == Action::<
            E,
        >::Return(Err(PerfError::SendingResponse(error)))),
        actions[i] matches Action::Return(Err(_)) ==> i > 0 && (events[i - 1] matches Event::Sent(
            Err(_),
        )),
    decreases i,
{
    if i > 0 {
        lemma_turn(bytes, states, actions, events, i - 1);
        assert(moves_on(states, actions, events, i - 1));
        let before = states[i - 1];
        lemma_filling_joins(
            (bytes - before.remaining) as nat,
            chunk_len(before.remaining as nat),
        );
        let len = (bytes - before.remaining + chunk_len(before.remaining as nat)) as nat;
        assert(handed_over(actions, i) == filling(len));
        assert(len <= bytes);
    } else {
        assert(filling(0) =~= Seq::<u8>::empty());
    }
}

/// Whatever number of bytes is asked for, what is handed over to be sent is filling, never more
/// than that number, in chunks that are full but for the one that completes the response. The
/// response ends well exactly when all of it has been handed over and sent, and otherwise with the
/// error of the sending that failed. It starts with `new` and goes on with `step`: `calls` is the
/// response as each call gets it, `states` what it is before and after. Whatever becomes of a
/// sending can be handed in.
pub proof fn law_what_is_handed_over_is_the_response<'a, E>(
    data: &'a Data,
    bytes: u64,
    states: Seq<Respond<'a>>,
    calls: Seq<&mut Respond<'a>>,
    actions: Seq<Action<E>>,
    events: Seq<Event<E>>,
    i: int,
)
    requires
        states.len() == actions.len() == events.len() + 1,
        calls.len() == events.len(),
        call_ensures(Respond::<'a>::new::<E>, (data, bytes), (states[0], actions[0])),
        forall|j: int| 0 <= j < events.len() ==> (#[trigger] actions[j]).answered_by(events[j]),
        forall|j: int|
            #![trigger calls[j]]
            0 <= j < events.len() ==> {
                &&& *calls[j] == states[j]
                &&& *final(calls[j]) == states[j + 1]
                &&& call_requires(Respond::<'a>::step::<E>, (calls[j], events[j])) ==> call_ensures(
                    Respond::<'a>::step::<E>,
                    (calls[j], events[j]),
                    actions[j + 1],
                )
            },
        0 <= i < actions.len(),
    ensures
        call_requires(Respond::<'a>::new::<E>, (data, bytes)),
        i < events.len() ==> call_requires(Respond::<'a>::step::<E>, (calls[i], events[i])),
        handed_over(actions, i).len() <= bytes,
        forall|k: int|
            0 <= k < handed_over(actions, i).len() ==> #[trigger] handed_over(actions, i)[k] == 42,
        match actions[i] {
            Action::Send(chunk) => {
                let len = handed_over(actions, i).len() + contents(chunk).len();
                &&& i > 0 ==> (events[i - 1] matches Event::Sent(Ok(_)))
                &&& 0 < contents(chunk).len() <= 1048576
                &&& len <= bytes
                &&& contents(chunk).len() == 1048576 || len == bytes
                &&& forall|k: int|
                    0 <= k < contents(chunk).len() ==> #[trigger] contents(chunk)[k] == 42
            },
            Action::Return(Ok(_)) => {
                &&& i > 0 ==> (events[i - 1] matches Event::Sent(Ok(_)))
                &&& handed_over(actions, i).len() == bytes
                &&& handed_over(actions, i) == filling(bytes as nat)
            },
            Action::Return(Err(failure)) => i > 0 && (events[i - 1] matches Event::Sent(Err(error))
                && failure == PerfError::SendingResponse(error)),
        },
{
    assert forall|j: int| 0 <= j < events.len() implies #[trigger] moves_on(
        states,
        actions,
        events,
        j,
    ) by {
        assert(*calls[j] == states[j]);
        assert(actions[j].answered_by(events[j]));
    }
    lemma_turn(bytes, states, actions, events, i);
    if i < events.len() {
        assert(moves_on(states, actions, events, i));
        assert(*calls[i] == states[i]);
    }
    if i > 0 {
        lemma_turn(bytes, states, actions, events, i - 1);
    }
}

} // verus!
