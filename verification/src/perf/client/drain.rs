//! Reading a response to its end.

use crate::perf::error::PerfError;
use vstd::prelude::*;

verus! {

/// What the reader is waiting for.
#[derive(Clone, Copy, Debug, PartialEq, Eq, Structural)]
pub enum Phase {
    Stats,
    Receive,
    FirstByte,
    Record,
    Finish,
    Ended,
}

/// What became of the last operation.
pub enum Event<E> {
    StatsOpened,
    /// Buffers of this many bytes came, and whether the stream is still open.
    Received(Result<(usize, bool), E>),
    FirstByteRecorded,
    Recorded,
    Finished,
}

/// The next operation.
pub enum Action<E> {
    /// Start to take statistics of a stream that is to bring this many bytes.
    OpenStats { download: u64 },
    /// Wait for some of the response.
    Receive,
    /// Record how long it took for the response to start.
    RecordFirstByte,
    /// Record that this many bytes came.
    RecordBytes(usize),
    /// Record how long the whole response took.
    Finish,
    /// The response is over.
    Return(Result<(), PerfError<E>>),
}

/// A response being read.
#[derive(Clone, Copy, Debug, PartialEq, Eq, Structural)]
pub struct Drain {
    /// Whether nothing has come yet.
    pub first_byte: bool,
    /// How many bytes came last.
    pub received: usize,
    /// Whether the stream was still open then.
    pub is_open: bool,
    pub phase: Phase,
}

impl<E> Event<E> {
    /// The phase in which the event can come.
    pub open spec fn phase(self) -> Phase {
        match self {
            Event::StatsOpened => Phase::Stats,
            Event::Received(_) => Phase::Receive,
            Event::FirstByteRecorded => Phase::FirstByte,
            Event::Recorded => Phase::Record,
            Event::Finished => Phase::Finish,
        }
    }
}

impl<E> Action<E> {
    /// The phase in which the operation is awaited.
    pub open spec fn phase(self) -> Phase {
        match self {
            Action::OpenStats { .. } => Phase::Stats,
            Action::Receive => Phase::Receive,
            Action::RecordFirstByte => Phase::FirstByte,
            Action::RecordBytes(_) => Phase::Record,
            Action::Finish => Phase::Finish,
            Action::Return(_) => Phase::Ended,
        }
    }
}

impl Drain {
    /// The reader before anything is done.
    pub open spec fn start() -> Drain {
        Drain { first_byte: true, received: 0, is_open: true, phase: Phase::Stats }
    }

    /// The operation that follows `event`.
    pub open spec fn next<E>(self, event: Event<E>) -> Action<E> {
        match event {
            Event::StatsOpened => Action::Receive,
            Event::Received(Ok((received, is_open))) => if self.first_byte {
                Action::RecordFirstByte
            } else {
                Action::RecordBytes(received)
            },
            Event::Received(Err(error)) => Action::Return(Err(PerfError::Outside(error))),
            Event::FirstByteRecorded => Action::RecordBytes(self.received),
            Event::Recorded => if self.is_open {
                Action::Receive
            } else {
                Action::Finish
            },
            Event::Finished => Action::Return(Ok(())),
        }
    }

    /// The state after `event`.
    pub open spec fn after<E>(self, event: Event<E>) -> Drain {
        let phase = self.next(event).phase();
        match event {
            Event::Received(Ok((received, is_open))) => Drain { received, is_open, phase, ..self },
            Event::FirstByteRecorded => Drain { first_byte: false, phase, ..self },
            _ => Drain { phase, ..self },
        }
    }

    /// Starts to read a response that is to bring `download` bytes.
    pub fn new<E>(download: u64) -> (started: (Drain, Action<E>))
        ensures
            started.0 == Drain::start(),
            started.1 == (Action::<E>::OpenStats { download }),
    {
        let drain = Drain { first_byte: true, received: 0, is_open: true, phase: Phase::Stats };
        (drain, Action::OpenStats { download })
    }

    /// Takes in what became of the last operation and gives the next one.
    pub fn step<E>(&mut self, event: Event<E>) -> (action: Action<E>)
        requires
            old(self).phase == event.phase(),
        ensures
            action == old(self).next(event),
            *final(self) == old(self).after(event),
    {
        match event {
            Event::StatsOpened => {
                self.phase = Phase::Receive;
                Action::Receive
            },
            Event::Received(Ok((received, is_open))) => {
                self.received = received;
                self.is_open = is_open;
                if self.first_byte {
                    self.phase = Phase::FirstByte;
                    Action::RecordFirstByte
                } else {
                    self.phase = Phase::Record;
                    Action::RecordBytes(received)
                }
            },
            Event::Received(Err(error)) => {
                self.phase = Phase::Ended;
                Action::Return(Err(PerfError::Outside(error)))
            },
            Event::FirstByteRecorded => {
                self.first_byte = false;
                self.phase = Phase::Record;
                Action::RecordBytes(self.received)
            },
            Event::Recorded => if self.is_open {
                self.phase = Phase::Receive;
                Action::Receive
            } else {
                self.phase = Phase::Finish;
                Action::Finish
            },
            Event::Finished => {
                self.phase = Phase::Ended;
                Action::Return(Ok(()))
            },
        }
    }

    /// The state after all of `events`, in order.
    pub open spec fn after_all<E>(self, events: Seq<Event<E>>) -> Drain
        decreases events.len(),
    {
        if events.len() == 0 {
            self
        } else {
            self.after_all(events.drop_last()).after(events.last())
        }
    }

    /// Whether every one of `events` can come when the ones before it have.
    pub open spec fn awaits_all<E>(self, events: Seq<Event<E>>) -> bool {
        forall|i: int|
            0 <= i < events.len() ==> #[trigger] self.after_all(events.take(i)).phase
                == events[i].phase()
    }

    /// The operation that follows `events[i]`, when all of `events` come in order.
    pub open spec fn next_at<E>(self, events: Seq<Event<E>>, i: int) -> Action<E> {
        self.after_all(events.take(i)).next(events[i])
    }

    /// How many bytes have been recorded when all of `events` have come, in order.
    pub open spec fn recorded<E>(self, events: Seq<Event<E>>) -> nat
        decreases events.len(),
    {
        if events.len() == 0 {
            0
        } else {
            self.recorded(events.drop_last()) + match events.last() {
                Event::Recorded => self.after_all(events.drop_last()).received as nat,
                _ => 0,
            }
        }
    }
}

/// How many bytes have come with `events`.
pub open spec fn received<E>(events: Seq<Event<E>>) -> nat
    decreases events.len(),
{
    if events.len() == 0 {
        0
    } else {
        received(events.drop_last()) + match events.last() {
            Event::Received(Ok((len, _))) => len as nat,
            _ => 0,
        }
    }
}

/// How often the start of the response has been recorded with `events`.
pub open spec fn first_bytes<E>(events: Seq<Event<E>>) -> nat
    decreases events.len(),
{
    if events.len() == 0 {
        0
    } else {
        first_bytes(events.drop_last()) + if events.last() is FirstByteRecorded {
            1nat
        } else {
            0nat
        }
    }
}

proof fn lemma_adds_up<E>(events: Seq<Event<E>>, n: int)
    requires
        Drain::start().awaits_all(events),
        0 <= n <= events.len(),
    ensures
        ({
            let upto = events.take(n);
            let state = Drain::start().after_all(upto);
            let pending = if state.phase is FirstByte || state.phase is Record {
                state.received as nat
            } else {
                0nat
            };
            &&& first_bytes(upto) == if state.first_byte {
                0nat
            } else {
                1nat
            }
            &&& received(upto) == Drain::start().recorded(upto) + pending
            &&& state.first_byte ==> Drain::start().recorded(upto) == 0
            &&& state.phase is FirstByte ==> state.first_byte
            &&& state.phase is Record || state.phase is Finish ==> !state.first_byte
            &&& state.phase is Finish ==> !state.is_open
        }),
    decreases n,
{
    if n > 0 {
        lemma_adds_up(events, n - 1);
        assert(events.take(n).drop_last() =~= events.take(n - 1));
        assert(Drain::start().after_all(events.take(n - 1)).phase == events[n - 1].phase());
    }
}

/// Everything that comes is recorded, once: between two waits the bytes that came and the bytes
/// that were recorded are the same number.
pub proof fn law_received_bytes_are_recorded<E>(events: Seq<Event<E>>)
    requires
        Drain::start().awaits_all(events),
        ({
            let phase = Drain::start().after_all(events).phase;
            phase is Receive || phase is Finish || phase is Ended
        }),
    ensures
        Drain::start().recorded(events) == received(events),
{
    lemma_adds_up(events, events.len() as int);
    assert(events.take(events.len() as int) =~= events);
}

/// The start of the response is recorded at most once, and before any of its bytes are.
pub proof fn law_the_start_is_recorded_once<E>(events: Seq<Event<E>>)
    requires
        Drain::start().awaits_all(events),
    ensures
        first_bytes(events) <= 1,
        Drain::start().recorded(events) > 0 ==> first_bytes(events) == 1,
{
    lemma_adds_up(events, events.len() as int);
    assert(events.take(events.len() as int) =~= events);
}

/// A response ends well only when its stream was read to the end. By then everything that came has
/// been recorded, and so has the start of the response, even when no bytes came at all.
pub proof fn law_responses_are_read_to_the_end<E>(events: Seq<Event<E>>, i: int)
    requires
        Drain::start().awaits_all(events),
        0 <= i < events.len(),
        Drain::start().next_at(events, i) matches Action::Return(Ok(_)),
    ensures
        !Drain::start().after_all(events.take(i)).is_open,
        first_bytes(events.take(i)) == 1,
        Drain::start().recorded(events.take(i)) == received(events.take(i)),
        i == events.len() - 1,
{
    lemma_adds_up(events, i);
    assert(Drain::start().after_all(events.take(i)).phase == events[i].phase());
    assert(events.take(i + 1).drop_last() =~= events.take(i));
    if i + 1 < events.len() {
        assert(Drain::start().after_all(events.take(i + 1)).phase == events[i + 1].phase());
    }
}

impl<E> Action<E> {
    /// Whether `event` tells what became of the operation. Nothing comes after the end.
    pub open spec fn answered_by(self, event: Event<E>) -> bool {
        match self {
            Action::OpenStats { .. } => event is StatsOpened,
            Action::Receive => event is Received,
            Action::RecordFirstByte => event is FirstByteRecorded,
            Action::RecordBytes(_) => event is Recorded,
            Action::Finish => event is Finished,
            Action::Return(_) => false,
        }
    }
}

/// How many bytes the first `n` of `actions` record.
pub open spec fn written_down<E>(actions: Seq<Action<E>>, n: int) -> int
    decreases n,
{
    if n <= 0 {
        0
    } else {
        let before = written_down(actions, n - 1);
        match actions[n - 1] {
            Action::RecordBytes(len) => before + len,
            _ => before,
        }
    }
}

/// How many bytes came with the first `n` of `events`.
pub open spec fn came_in<E>(events: Seq<Event<E>>, n: int) -> int
    decreases n,
{
    if n <= 0 {
        0
    } else {
        let before = came_in(events, n - 1);
        match events[n - 1] {
            Event::Received(Ok((len, _))) => before + len,
            _ => before,
        }
    }
}

/// Whether `events[i]` takes the reader and what it asks for on, as a call of `step` does.
spec fn moves_on<E>(
    states: Seq<Drain>,
    actions: Seq<Action<E>>,
    events: Seq<Event<E>>,
    i: int,
) -> bool {
    &&& actions[i].answered_by(events[i])
    &&& states[i].phase == events[i].phase() ==> {
        &&& actions[i + 1] == states[i].next(events[i])
        &&& states[i + 1] == states[i].after(events[i])
    }
}

proof fn lemma_turn<E>(
    states: Seq<Drain>,
    actions: Seq<Action<E>>,
    events: Seq<Event<E>>,
    i: int,
)
    requires
        states.len() == actions.len() == events.len() + 1,
        states[0] == Drain::start(),
        actions[0] is OpenStats,
        forall|j: int| 0 <= j < events.len() ==> #[trigger] moves_on(states, actions, events, j),
        0 <= i < actions.len(),
    ensures
        states[i].phase == actions[i].phase(),
        states[i].first_byte <==> i < 3,
        i == 0 <==> actions[i] is OpenStats,
        actions[i] is RecordFirstByte ==> i == 2,
        i == 1 ==> actions[i] is Receive,
        i == 2 ==> actions[i] is RecordFirstByte || actions[i] is Return,
        i == 3 ==> actions[i] is RecordBytes,
        i > 3 && i % 2 == 0 ==> actions[i] is Receive || actions[i] is Finish,
        i > 3 && i % 2 == 1 ==> actions[i] is RecordBytes || actions[i] is Return,
        i == 2 && !(actions[i] is Return) || i == 3 ==> (events[1] matches Event::Received(
            Ok((len, is_open)),
        ) && states[i].received == len && states[i].is_open == is_open),
        i > 3 && i % 2 == 1 && actions[i] is RecordBytes ==> (events[i - 1]
            matches Event::Received(Ok((len, is_open))) && states[i].received == len
            && states[i].is_open == is_open),
        actions[i] matches Action::RecordBytes(len) ==> len == states[i].received,
        came_in(events, i) == written_down(actions, i) + if actions[i] is RecordFirstByte
            || actions[i] is RecordBytes {
            states[i].received as int
        } else {
            0
        },
        i > 0 ==> actions[i] == states[i - 1].next(events[i - 1]) && actions[i - 1].answered_by(
            events[i - 1],
        ),
    decreases i,
{
    if i > 0 {
        lemma_turn(states, actions, events, i - 1);
        assert(moves_on(states, actions, events, i - 1));
    }
}

/// However many bytes come, and however often, every arrival is recorded once, with its length,
/// before the next one is waited for. The start of the response is recorded with the first arrival
/// alone, before its bytes. Reading goes on exactly while the stream is open, and then finishes. It
/// ends well exactly then, and otherwise with the error of the wait that failed. Whenever nothing
/// is about to be recorded, as many bytes have been recorded as came. Reading starts with `new` and
/// goes on with `step`: `calls` is the reader as each call gets it, `states` what it is before and
/// after. Whatever becomes of an operation can be handed in.
pub proof fn law_what_comes_in_is_written_down<E>(
    download: u64,
    states: Seq<Drain>,
    calls: Seq<&mut Drain>,
    actions: Seq<Action<E>>,
    events: Seq<Event<E>>,
    i: int,
)
    requires
        states.len() == actions.len() == events.len() + 1,
        calls.len() == events.len(),
        call_ensures(Drain::new::<E>, (download,), (states[0], actions[0])),
        forall|j: int| 0 <= j < events.len() ==> (#[trigger] actions[j]).answered_by(events[j]),
        forall|j: int|
            #![trigger calls[j]]
            0 <= j < events.len() ==> {
                &&& *calls[j] == states[j]
                &&& *final(calls[j]) == states[j + 1]
                &&& call_requires(Drain::step::<E>, (calls[j], events[j])) ==> call_ensures(
                    Drain::step::<E>,
                    (calls[j], events[j]),
                    actions[j + 1],
                )
            },
        0 <= i < actions.len(),
    ensures
        call_requires(Drain::new::<E>, (download,)),
        i < events.len() ==> call_requires(Drain::step::<E>, (calls[i], events[i])),
        i == 0 ==> actions[i] == (Action::<E>::OpenStats { download }),
        i == 1 ==> actions[i] is Receive,
        i == 2 ==> (events[1] matches Event::Received(received) && match received {
            Ok(_) => actions[i] is RecordFirstByte,
            Err(error) => actions[i] == Action::<E>::Return(Err(PerfError::Outside(error))),
        }),
        i == 3 ==> (events[1] matches Event::Received(Ok((len, _))) && actions[i] == Action::<
            E,
        >::RecordBytes(len)),
        i > 3 && i % 2 == 0 ==> {
            let last = if i == 4 {
                events[1]
            } else {
                events[i - 2]
            };
            last matches Event::Received(Ok((_, is_open))) && if is_open {
                actions[i] is Receive
            } else {
                actions[i] is Finish
            }
        },
        i > 3 && i % 2 == 1 ==> match events[i - 1] {
            Event::Received(Ok((len, _))) => actions[i] == Action::<E>::RecordBytes(len),
            Event::Received(Err(error)) => actions[i] == Action::<E>::Return(
                Err(PerfError::Outside(error)),
            ),
            _ => actions[i - 1] is Finish && actions[i] == Action::<E>::Return(Ok(())),
        },
        !(actions[i] is RecordFirstByte) && !(actions[i] is RecordBytes) ==> written_down(
            actions,
            i,
        ) == came_in(events, i),
{
    assert forall|j: int| 0 <= j < events.len() implies #[trigger] moves_on(
        states,
        actions,
        events,
        j,
    ) by {
        assert(*calls[j] == states[j]);
        assert(actions[j].answered_by(events[j]));
    }
    lemma_turn(states, actions, events, i);
    if i < events.len() {
        assert(moves_on(states, actions, events, i));
        assert(*calls[i] == states[i]);
    }
    if i > 0 {
        lemma_turn(states, actions, events, i - 1);
    }
    if i > 1 {
        lemma_turn(states, actions, events, i - 2);
    }
}

} // verus!
