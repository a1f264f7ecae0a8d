//! Sending a request.

use crate::perf::buffer::contents;
use crate::perf::data::{chunk_len, filling, lemma_filling_joins, Data, CHUNK_LEN};
use crate::perf::error::PerfError;
use crate::perf::wire::{header, law_headers_are_read_back, request_header};
use bytes::Bytes;
use vstd::prelude::*;

verus! {

/// What the request is waiting for.
#[derive(Clone, Copy, Debug, PartialEq, Eq, Structural)]
pub enum Phase {
    Header,
    Stats,
    Chunk,
    Record,
    Close,
    Finish,
    Ended,
}

/// What became of the last operation.
pub enum Event<E> {
    Sent(Result<(), E>),
    StatsOpened,
    Recorded,
    Closed(Result<(), E>),
    Finished,
}

/// The next operation.
pub enum Action<E> {
    /// Send this buffer.
    Send(Bytes),
    /// Start to take statistics of a stream that is to carry this many bytes.
    OpenStats { upload: u64 },
    /// Record that this many bytes were sent.
    RecordBytes(usize),
    /// Close the stream.
    Close,
    /// Record how long the whole request took.
    Finish,
    /// The request is over.
    Return(Result<(), PerfError<E>>),
}

/// A request in progress: for `download` bytes, with `upload` bytes behind the header.
pub struct Request<'a> {
    pub data: &'a Data,
    pub upload: u64,
    pub download: u64,
    /// How many of the bytes behind the header have not been recorded as sent.
    pub remaining: u64,
    pub phase: Phase,
}

impl<'a> Request<'a> {
    /// The request before anything is sent.
    pub open spec fn start(data: &'a Data, upload: u64, download: u64) -> Request<'a> {
        Request { data, upload, download, remaining: upload, phase: Phase::Header }
    }

    /// Whether `event` can come now.
    pub open spec fn awaits<E>(self, event: Event<E>) -> bool {
        match event {
            Event::Sent(_) => self.phase is Header || self.phase is Chunk,
            Event::StatsOpened => self.phase is Stats,
            Event::Recorded => self.phase is Record,
            Event::Closed(_) => self.phase is Close,
            Event::Finished => self.phase is Finish,
        }
    }

    /// The bytes that are being sent.
    pub open spec fn pending(self) -> Seq<u8> {
        if self.phase is Header {
            header(self.download)
        } else {
            filling(chunk_len(self.remaining as nat))
        }
    }

    /// How many bytes are left when the last chunk has been recorded.
    pub open spec fn left(self) -> u64 {
        (self.remaining - chunk_len(self.remaining as nat)) as u64
    }

    /// The result that `event` ends the request with, if it does. A request that only asks is over
    /// when its stream is closed. One that carries bytes is over when its time has been recorded.
    pub open spec fn outcome<E>(self, event: Event<E>) -> Option<Result<(), PerfError<E>>> {
        match event {
            Event::Sent(Err(error)) => Some(
                if self.phase is Header {
                    Err(PerfError::Outside(error))
                } else {
                    Err(PerfError::SendingResponse(error))
                },
            ),
            Event::Closed(Err(error)) => Some(Err(PerfError::Outside(error))),
            Event::Closed(Ok(_)) => if self.upload == 0 {
                Some(Ok(()))
            } else {
                None
            },
            Event::Finished => Some(Ok(())),
            _ => None,
        }
    }

    /// The state after `event`.
    pub open spec fn after<E>(self, event: Event<E>) -> Request<'a> {
        let remaining = if event is Recorded {
            self.left()
        } else {
            self.remaining
        };
        let phase = if self.outcome(event) is Some {
            Phase::Ended
        } else {
            match event {
                Event::Sent(_) => if self.phase is Chunk {
                    Phase::Record
                } else if self.upload == 0 {
                    Phase::Close
                } else {
                    Phase::Stats
                },
                Event::StatsOpened => Phase::Chunk,
                Event::Recorded => if remaining == 0 {
                    Phase::Close
                } else {
                    Phase::Chunk
                },
                _ => Phase::Finish,
            }
        };
        Request { remaining, phase, ..self }
    }

    /// Whether `action` is the operation that the request is waiting for.
    pub open spec fn calls_for<E>(self, action: Action<E>) -> bool {
        match self.phase {
            Phase::Header | Phase::Chunk => action matches Action::Send(buffer) && contents(buffer)
                == self.pending(),
            Phase::Stats => action == (Action::<E>::OpenStats { upload: self.upload }),
            Phase::Record => action matches Action::RecordBytes(len) && len == chunk_len(
                self.remaining as nat,
            ),
            Phase::Close => action == Action::<E>::Close,
            Phase::Finish => action == Action::<E>::Finish,
            Phase::Ended => action is Return,
        }
    }

    /// Starts a request for `download` bytes that carries `upload` bytes: the header goes first.
    pub fn new<E>(data: &'a Data, upload: u64, download: u64) -> (started: (
        Request<'a>,
        Action<E>,
    ))
        ensures
            started.0 == Request::start(data, upload, download),
            started.0.calls_for(started.1),
    {
        let request = Request { data, upload, download, remaining: upload, phase: Phase::Header };
        (request, Action::Send(request_header(download)))
    }

    /// Goes on to send the next chunk.
    fn send_chunk<E>(&mut self) -> (action: Action<E>)
        ensures
            *final(self) == (Request { phase: Phase::Chunk, ..*old(self) }),
            final(self).calls_for(action),
    {
        self.phase = Phase::Chunk;
        Action::Send(self.data.next_chunk(self.remaining))
    }

    /// Takes in what became of the last operation and gives the next one.
    pub fn step<E>(&mut self, event: Event<E>) -> (action: Action<E>)
        requires
            old(self).awaits(event),
        ensures
            *final(self) == old(self).after(event),
            match old(self).outcome(event) {
                Some(result) => action == Action::<E>::Return(result),
                None => final(self).calls_for(action),
            },
    {
        let chunk: u64 = if self.remaining < CHUNK_LEN {
            self.remaining
        } else {
            CHUNK_LEN
        };
        match event {
            Event::Sent(Ok(_)) => match self.phase {
                Phase::Chunk => {
                    self.phase = Phase::Record;
                    Action::RecordBytes(chunk as usize)
                },
                _ => if self.upload == 0 {
                    self.phase = Phase::Close;
                    Action::Close
                } else {
                    self.phase = Phase::Stats;
                    Action::OpenStats { upload: self.upload }
                },
            },
            Event::Sent(Err(error)) => {
                let failure = match self.phase {
                    Phase::Header => PerfError::Outside(error),
                    _ => PerfError::SendingResponse(error),
                };
                self.phase = Phase::Ended;
                Action::Return(Err(failure))
            },
            Event::StatsOpened => self.send_chunk(),
            Event::Recorded => {
                self.remaining = self.remaining - chunk;
                if self.remaining == 0 {
                    self.phase = Phase::Close;
                    Action::Close
                } else {
                    self.send_chunk()
                }
            },
            Event::Closed(Ok(_)) => if self.upload == 0 {
                self.phase = Phase::Ended;
                Action::Return(Ok(()))
            } else {
                self.phase = Phase::Finish;
                Action::Finish
            },
            Event::Closed(Err(error)) => {
                self.phase = Phase::Ended;
                Action::Return(Err(PerfError::Outside(error)))
            },
            Event::Finished => {
                self.phase = Phase::Ended;
                Action::Return(Ok(()))
            },
        }
    }

    /// The state after all of `events`, in order.
    pub open spec fn after_all<E>(self, events: Seq<Event<E>>) -> Request<'a>
        decreases events.len(),
    {
        if events.len() == 0 {
            self
        } else {
            self.after_all(events.drop_last()).after(events.last())
        }
    }

    /// Whether every one of `events` can come when the ones before it have.
    pub open spec fn awaits_all<E>(self, events: Seq<Event<E>>) -> bool {
        forall|i: int|
            0 <= i < events.len() ==> #[trigger] self.after_all(events.take(i)).awaits(events[i])
    }

    /// The bytes that have been sent when all of `events` have come, in order.
    pub open spec fn sent<E>(self, events: Seq<Event<E>>) -> Seq<u8>
        decreases events.len(),
    {
        if events.len() == 0 {
            Seq::empty()
        } else {
            let before = self.sent(events.drop_last());
            match events.last() {
                Event::Sent(Ok(_)) => before + self.after_all(events.drop_last()).pending(),
                _ => before,
            }
        }
    }

    /// How many bytes have been recorded as sent when all of `events` have come, in order.
    pub open spec fn recorded<E>(self, events: Seq<Event<E>>) -> nat
        decreases events.len(),
    {
        if events.len() == 0 {
            0
        } else {
            let before = self.recorded(events.drop_last());
            match events.last() {
                Event::Recorded => before + chunk_len(
                    self.after_all(events.drop_last()).remaining as nat,
                ),
                _ => before,
            }
        }
    }

    /// All the bytes of the request.
    pub open spec fn stream(self) -> Seq<u8> {
        header(self.download) + filling(self.upload as nat)
    }

    /// The first bytes of the request, up to `len` bytes behind the header.
    spec fn stream_upto(self, len: int) -> Seq<u8> {
        header(self.download) + filling(len as nat)
    }

    /// How what has been sent and recorded goes with the state.
    spec fn adds_up(self, sent: Seq<u8>, recorded: nat) -> bool {
        &&& self.remaining <= self.upload
        &&& recorded == self.upload - self.remaining
        &&& match self.phase {
            Phase::Header => self.remaining == self.upload && sent == Seq::<u8>::empty(),
            Phase::Stats | Phase::Chunk => self.remaining > 0 && sent == self.stream_upto(
                self.upload - self.remaining,
            ),
            Phase::Record => self.remaining > 0 && sent == self.stream_upto(
                self.upload - self.remaining + chunk_len(self.remaining as nat),
            ),
            Phase::Close => self.remaining == 0 && sent == self.stream(),
            Phase::Finish => self.remaining == 0 && self.upload > 0 && sent == self.stream(),
            Phase::Ended => true,
        }
        &&& sent.is_prefix_of(self.stream())
    }
}

proof fn lemma_stream_grows<'a>(request: Request<'a>, len: int, more: nat)
    requires
        0 <= len,
        len + more <= request.upload,
    ensures
        request.stream_upto(len) + filling(more) == request.stream_upto(len + more),
        request.stream_upto(len + more).is_prefix_of(request.stream()),
{
    lemma_filling_joins(len as nat, more);
    assert(request.stream_upto(len) + filling(more) =~= header(request.download) + (filling(
        len as nat,
    ) + filling(more)));
    assert(request.stream_upto(len + more) =~= request.stream().subrange(
        0,
        request.stream_upto(len + more).len() as int,
    ));
}

proof fn lemma_adds_up<'a, E>(start: Request<'a>, events: Seq<Event<E>>, n: int)
    requires
        start == Request::start(start.data, start.upload, start.download),
        start.awaits_all(events),
        0 <= n <= events.len(),
    ensures
        ({
            let state = start.after_all(events.take(n));
            &&& state.upload == start.upload
            &&& state.download == start.download
            &&& state.adds_up(start.sent(events.take(n)), start.recorded(events.take(n)))
        }),
    decreases n,
{
    let upto = events.take(n);
    if n == 0 {
        assert(Seq::<u8>::empty() =~= start.stream().subrange(0, 0));
    } else {
        lemma_adds_up(start, events, n - 1);
        assert(upto.drop_last() =~= events.take(n - 1));
        let before = start.after_all(events.take(n - 1));
        let event = events[n - 1];
        assert(before.awaits(event));
        assert(filling(0) =~= Seq::<u8>::empty());
        if before.phase is Header {
            lemma_stream_grows(before, 0, 0);
            assert(Seq::<u8>::empty() + before.pending() =~= before.stream_upto(0));
        } else {
            lemma_stream_grows(
                before,
                before.upload - before.remaining,
                chunk_len(before.remaining as nat),
            );
        }
    }
}

/// At any time, what has been sent is the beginning of the request: the header, and then filling,
/// no more of it than the request is to carry. What has been recorded as sent and what is still to
/// be recorded add up.
pub proof fn law_sent_and_recorded_bytes_add_up<'a, E>(start: Request<'a>, events: Seq<Event<E>>)
    requires
        start == Request::start(start.data, start.upload, start.download),
        start.awaits_all(events),
    ensures
        start.sent(events).is_prefix_of(start.stream()),
        start.recorded(events) + start.after_all(events).remaining == start.upload,
{
    lemma_adds_up(start, events, events.len() as int);
    assert(events.take(events.len() as int) =~= events);
}

/// A request ends well only when all of it has been sent, all bytes behind the header have been
/// recorded, and its stream has been closed.
pub proof fn law_requests_are_complete<'a, E>(start: Request<'a>, events: Seq<Event<E>>, i: int)
    requires
        start == Request::start(start.data, start.upload, start.download),
        start.awaits_all(events),
        0 <= i < events.len(),
        start.after_all(events.take(i)).outcome(events[i]) matches Some(Ok(_)),
    ensures
        start.sent(events.take(i)) == start.stream(),
        start.recorded(events.take(i)) == start.upload,
        exists|j: int| 0 <= j <= i && (#[trigger] events[j] matches Event::Closed(Ok(_))),
{
    lemma_adds_up(start, events, i);
    let before = start.after_all(events.take(i));
    assert(before.awaits(events[i]));
    assert(before.stream() == start.stream());
    if before.phase is Finish {
        assert(events.take(i).drop_last() =~= events.take(i - 1));
        assert(start.after_all(events.take(i - 1)).awaits(events[i - 1]));
        assert(events[i - 1] matches Event::Closed(Ok(_)));
    } else {
        assert(events[i] matches Event::Closed(Ok(_)));
    }
}

/// No statistics are taken of a request that carries nothing behind its header.
pub proof fn law_empty_requests_are_not_recorded<'a, E>(
    start: Request<'a>,
    events: Seq<Event<E>>,
    i: int,
)
    requires
        start == Request::start(start.data, 0, start.download),
        start.awaits_all(events),
        0 <= i < events.len(),
    ensures
        events[i] is Sent || events[i] is Closed,
        i <= 1,
    decreases i,
{
    lemma_adds_up(start, events, i);
    assert(start.after_all(events.take(i)).awaits(events[i]));
    if i > 0 {
        law_empty_requests_are_not_recorded(start, events, i - 1);
        lemma_adds_up(start, events, i - 1);
        assert(events.take(i).drop_last() =~= events.take(i - 1));
        assert(start.after_all(events.take(i - 1)).awaits(events[i - 1]));
        if i > 1 {
            assert(events.take(i - 1).drop_last() =~= events.take(i - 2));
            assert(start.after_all(events.take(i - 2)).awaits(events[i - 2]));
        }
    }
}

impl<E> Action<E> {
    /// Whether `event` tells what became of the operation. Nothing comes after the end.
    pub open spec fn answered_by(self, event: Event<E>) -> bool {
        match self {
            Action::Send(_) => event is Sent,
            Action::OpenStats { .. } => event is StatsOpened,
            Action::RecordBytes(_) => event is Recorded,
            Action::Close => event is Closed,
            Action::Finish => event is Finished,
            Action::Return(_) => false,
        }
    }
}

/// What the first `n` of `actions` hand over to be sent, joined.
pub open spec fn handed_over<E>(actions: Seq<Action<E>>, n: int) -> Seq<u8>
    decreases n,
{
    if n <= 0 {
        Seq::empty()
    } else {
        let before = handed_over(actions, n - 1);
        match actions[n - 1] {
            Action::Send(buffer) => before + contents(buffer),
            _ => before,
        }
    }
}

/// How many bytes the first `n` of `actions` record as sent.
pub open spec fn written_down<E>(actions: Seq<Action<E>>, n: int) -> int
    decreases n,
{
    if n <= 0 {
        0
    } else {
        let before = written_down(actions, n - 1);
        match actions[n - 1] {
            Action::RecordBytes(len) => before + len,
            _ => before,
        }
    }
}

/// Whether `events[i]` takes the request and what it asks for on, as a call of `step` does.
spec fn moves_on<'a, E>(
    states: Seq<Request<'a>>,
    actions: Seq<Action<E>>,
    events: Seq<Event<E>>,
    i: int,
) -> bool {
    &&& actions[i].answered_by(events[i])
    &&& states[i].awaits(events[i]) ==> {
        &&& states[i + 1] == states[i].after(events[i])
        &&& match states[i].outcome(events[i]) {
            Some(result) => actions[i + 1] == Action::<E>::Return(result),
            None => states[i + 1].calls_for(actions[i + 1]),
        }
    }
}

proof fn lemma_turn<'a, E>(
    states: Seq<Request<'a>>,
    actions: Seq<Action<E>>,
    events: Seq<Event<E>>,
    i: int,
)
    requires
        states.len() == actions.len() == events.len() + 1,
        states[0] == Request::start(states[0].data, states[0].upload, states[0].download),
        states[0].calls_for(actions[0]),
        forall|j: int| 0 <= j < events.len() ==> #[trigger] moves_on(states, actions, events, j),
        0 <= i < actions.len(),
    ensures
        states[i].upload == states[0].upload,
        states[i].download == states[0].download,
        states[i].calls_for(actions[i]),
        states[i].phase is Header <==> i == 0,
        states[i].adds_up(handed_over(actions, i), written_down(actions, i) as nat),
        0 <= written_down(actions, i),
        i > 0 ==> actions[i - 1].answered_by(events[i - 1]),
        i > 0 ==> states[i - 1].awaits(events[i - 1]),
        i > 0 ==> states[i] == states[i - 1].after(events[i - 1]),
        i > 0 ==> match states[i - 1].outcome(events[i - 1]) {
            Some(result) => actions[i] == Action::<E>::Return(result),
            None => true,
        },
    decreases i,
{
    if i == 0 {
        assert(Seq::<u8>::empty() =~= states[0].stream().subrange(0, 0));
    } else {
        lemma_turn(states, actions, events, i - 1);
        assert(moves_on(states, actions, events, i - 1));
        let before = states[i - 1];
        assert(filling(0) =~= Seq::<u8>::empty());
        if before.phase is Header {
            lemma_stream_grows(before, 0, 0);
            assert(Seq::<u8>::empty() + before.pending() =~= before.stream_upto(0));
        } else {
            lemma_stream_grows(
                before,
                before.upload - before.remaining,
                chunk_len(before.remaining as nat),
            );
        }
    }
}

/// Whatever the numbers of bytes to carry and to ask for, the header goes first and asks for the
/// latter. A request that carries nothing then closes its stream. One that carries bytes hands them
/// over behind the header in chunks that are full but for the one that completes the request, and
/// records each chunk once it has been sent. When all are recorded it closes its stream and
/// finishes. It ends well exactly then, and otherwise with the error of the operation that failed.
/// It starts with `new` and goes on with `step`: `calls` is the request as each call gets it,
/// `states` what it is before and after. Whatever becomes of an operation can be handed in.
pub proof fn law_what_is_handed_over_is_the_request<'a, E>(
    data: &'a Data,
    upload: u64,
    download: u64,
    states: Seq<Request<'a>>,
    calls: Seq<&mut Request<'a>>,
    actions: Seq<Action<E>>,
    events: Seq<Event<E>>,
    i: int,
)
    requires
        states.len() == actions.len() == events.len() + 1,
        calls.len() == events.len(),
        call_ensures(Request::<'a>::new::<E>, (data, upload, download), (states[0], actions[0])),
        forall|j: int| 0 <= j < events.len() ==> (#[trigger] actions[j]).answered_by(events[j]),
        forall|j: int|
            #![trigger calls[j]]
            0 <= j < events.len() ==> {
                &&& *calls[j] == states[j]
                &&& *final(calls[j]) == states[j + 1]
                &&& call_requires(Request::<'a>::step::<E>, (calls[j], events[j])) ==> call_ensures(
                    Request::<'a>::step::<E>,
                    (calls[j], events[j]),
                    actions[j + 1],
                )
            },
        0 <= i < actions.len(),
    ensures
        call_requires(Request::<'a>::new::<E>, (data, upload, download)),
        i < events.len() ==> call_requires(Request::<'a>::step::<E>, (calls[i], events[i])),
        i == 0 ==> (actions[i] matches Action::Send(buffer) && contents(buffer) == header(
            download,
        )),
        i > 0 ==> match (actions[i - 1], events[i - 1]) {
            (Action::Send(buffer), Event::Sent(Ok(_))) => if i > 1 {
                actions[i] matches Action::RecordBytes(len) && len == contents(buffer).len()
            } else if upload == 0 {
                actions[i] is Close
            } else {
                actions[i] == (Action::<E>::OpenStats { upload })
            },
            (Action::Send(_), Event::Sent(Err(error))) => actions[i] == Action::<E>::Return(
                Err(
                    if i == 1 {
                        PerfError::Outside(error)
                    } else {
                        PerfError::SendingResponse(error)
                    },
                ),
            ),
            (Action::OpenStats { .. }, Event::StatsOpened) => actions[i] is Send,
            (Action::RecordBytes(_), Event::Recorded) => if written_down(actions, i) == upload {
                actions[i] is Close
            } else {
                actions[i] is Send
            },
            (Action::Close, Event::Closed(Ok(_))) => if upload == 0 {
                actions[i] == Action::<E>::Return(Ok(()))
            } else {
                actions[i] is Finish
            },
            (Action::Close, Event::Closed(Err(error))) => actions[i] == Action::<E>::Return(
                Err(PerfError::Outside(error)),
            ),
            (Action::Finish, Event::Finished) => actions[i] == Action::<E>::Return(Ok(())),
            _ => false,
        },
        i > 0 ==> (actions[i] matches Action::Send(chunk) ==> {
            let len = handed_over(actions, i).len() + contents(chunk).len();
            &&& 0 < contents(chunk).len() <= 1048576
            &&& len <= 8 + upload
            &&& contents(chunk).len() == 1048576 || len == 8 + upload
            &&& forall|k: int|
                0 <= k < contents(chunk).len() ==> #[trigger] contents(chunk)[k] == 42
        }),
        actions[i] is Close || actions[i] is Finish || actions[i] == Action::<E>::Return(Ok(()))
            ==> {
            &&& handed_over(actions, i) == header(download) + filling(upload as nat)
            &&& handed_over(actions, i).len() == 8 + upload
            &&& handed_over(actions, i).take(8) == header(download)
            &&& forall|k: int|
                8 <= k < 8 + upload ==> #[trigger] handed_over(actions, i)[k] == 42
            &&& written_down(actions, i) == upload
        },
{
    assert forall|j: int| 0 <= j < events.len() implies #[trigger] moves_on(
        states,
        actions,
        events,
        j,
    ) by {
        assert(*calls[j] == states[j]);
        assert(actions[j].answered_by(events[j]));
    }
    lemma_turn(states, actions, events, i);
    if i < events.len() {
        assert(moves_on(states, actions, events, i));
        assert(*calls[i] == states[i]);
    }
    law_headers_are_read_back(download);
    assert(states[i].stream() == header(download) + filling(upload as nat));
    assert(states[i].stream().take(8) =~= header(download));
    if i > 0 {
        lemma_turn(states, actions, events, i - 1);
    }
}

} // verus!
