//! Keeping a number of requests going at once.

use vstd::prelude::*;

verus! {

/// What the loop is waiting for.
#[derive(Clone, Copy, Debug, PartialEq, Eq, Structural)]
pub enum Phase {
    Acquire,
    Open,
    Spawn,
    Ended,
}

/// What became of the last operation.
pub enum Event<E> {
    Acquired,
    Opened(Result<(), E>),
    Spawned,
}

/// The next operation.
pub enum Action<E> {
    /// Wait for a permit.
    Acquire,
    /// Open the stream of a request.
    Open,
    /// Make the request in a task of its own, which gives the permit back when it ends.
    Spawn,
    /// Stop making requests and report this error.
    Return(E),
}

/// The loop that makes requests.
#[derive(Clone, Copy, Debug, PartialEq, Eq, Structural)]
pub struct Drive {
    /// How many permits there are.
    pub permits: usize,
    pub phase: Phase,
}

impl<E> Event<E> {
    /// The phase in which the event can come.
    pub open spec fn phase(self) -> Phase {
        match self {
            Event::Acquired => Phase::Acquire,
            Event::Opened(_) => Phase::Open,
            Event::Spawned => Phase::Spawn,
        }
    }
}

impl<E> Action<E> {
    /// The phase in which the operation is awaited.
    pub open spec fn phase(self) -> Phase {
        match self {
            Action::Acquire => Phase::Acquire,
            Action::Open => Phase::Open,
            Action::Spawn => Phase::Spawn,
            Action::Return(_) => Phase::Ended,
        }
    }

    /// Whether `event` tells what became of the operation. Nothing comes after the end.
    pub open spec fn answered_by(self, event: Event<E>) -> bool {
        match self {
            Action::Acquire => event is Acquired,
            Action::Open => event is Opened,
            Action::Spawn => event is Spawned,
            Action::Return(_) => false,
        }
    }
}

impl Drive {
    /// The operation that follows `event`.
    pub open spec fn next<E>(self, event: Event<E>) -> Action<E> {
        match event {
            Event::Acquired => Action::Open,
            Event::Opened(Ok(_)) => Action::Spawn,
            Event::Opened(Err(error)) => Action::Return(error),
            Event::Spawned => Action::Acquire,
        }
    }

    /// The state after `event`.
    pub open spec fn after<E>(self, event: Event<E>) -> Drive {
        Drive { permits: self.permits, phase: self.next(event).phase() }
    }

    /// Starts to keep `concurrency` requests going. That number is taken at the width of the
    /// machine.
    pub fn new<E>(concurrency: u64) -> (started: (Drive, Action<E>))
        ensures
            started.0 == (Drive { permits: concurrency as usize, phase: Phase::Acquire }),
            concurrency <= usize::MAX ==> started.0.permits == concurrency,
            started.1 == Action::<E>::Acquire,
    {
        (Drive { permits: concurrency as usize, phase: Phase::Acquire }, Action::Acquire)
    }

    /// Takes in what became of the last operation and gives the next one.
    pub fn step<E>(&mut self, event: Event<E>) -> (action: Action<E>)
        requires
            old(self).phase == event.phase(),
        ensures
            action == old(self).next(event),
            *final(self) == old(self).after(event),
    {
        match event {
            Event::Acquired => {
                self.phase = Phase::Open;
                Action::Open
            },
            Event::Opened(Ok(_)) => {
                self.phase = Phase::Spawn;
                Action::Spawn
            },
            Event::Opened(Err(error)) => {
                self.phase = Phase::Ended;
                Action::Return(error)
            },
            Event::Spawned => {
                self.phase = Phase::Acquire;
                Action::Acquire
            },
        }
    }

    /// The state after all of `events`, in order.
    pub open spec fn after_all<E>(self, events: Seq<Event<E>>) -> Drive
        decreases events.len(),
    {
        if events.len() == 0 {
            self
        } else {
            self.after_all(events.drop_last()).after(events.last())
        }
    }

    /// Whether every one of `events` can come when the ones before it have.
    pub open spec fn awaits_all<E>(self, events: Seq<Event<E>>) -> bool {
        forall|i: int|
            0 <= i < events.len() ==> #[trigger] self.after_all(events.take(i)).phase
                == events[i].phase()
    }
}

/// How many permits have been acquired with `events`.
pub open spec fn acquired<E>(events: Seq<Event<E>>) -> nat
    decreases events.len(),
{
    if events.len() == 0 {
        0
    } else {
        acquired(events.drop_last()) + if events.last() is Acquired {
            1nat
        } else {
            0nat
        }
    }
}

/// How many requests have been started with `events`.
pub open spec fn spawned<E>(events: Seq<Event<E>>) -> nat
    decreases events.len(),
{
    if events.len() == 0 {
        0
    } else {
        spawned(events.drop_last()) + if events.last() is Spawned {
            1nat
        } else {
            0nat
        }
    }
}

proof fn lemma_one_permit_each<E>(start: Drive, events: Seq<Event<E>>, n: int)
    requires
        start.phase == Phase::Acquire,
        start.awaits_all(events),
        0 <= n <= events.len(),
    ensures
        acquired(events.take(n)) == spawned(events.take(n)) + if start.after_all(
            events.take(n),
        ).phase is Acquire {
            0nat
        } else {
            1nat
        },
    decreases n,
{
    if n > 0 {
        lemma_one_permit_each(start, events, n - 1);
        assert(events.take(n).drop_last() =~= events.take(n - 1));
        assert(start.after_all(events.take(n - 1)).phase == events[n - 1].phase());
    }
}

/// Every request is made with a permit of its own, and at most one permit is held besides: the one
/// of the request that is about to start.
pub proof fn law_every_request_has_a_permit<E>(start: Drive, events: Seq<Event<E>>)
    requires
        start.phase == Phase::Acquire,
        start.awaits_all(events),
    ensures
        spawned(events) <= acquired(events) <= spawned(events) + 1,
        start.after_all(events).phase is Spawn ==> acquired(events) == spawned(events) + 1,
{
    lemma_one_permit_each(start, events, events.len() as int);
    assert(events.take(events.len() as int) =~= events);
}

/// As many requests are kept going at once as there are permits, and never more. `released` is how
/// many of the requests have ended and so have given their permit back. As long as no more permits
/// are held than there are, no more requests are going than there are permits, and fewer while the
/// next one is about to start. When the loop waits for a permit and all of them are held, exactly
/// as many requests are going.
pub proof fn law_as_many_requests_go_as_there_are_permits<E>(
    start: Drive,
    events: Seq<Event<E>>,
    released: nat,
)
    requires
        start.phase == Phase::Acquire,
        start.awaits_all(events),
        released <= spawned(events),
        acquired(events) <= start.permits + released,
    ensures
        spawned(events) - released <= start.permits,
        ({
            let phase = start.after_all(events).phase;
            &&& phase is Open || phase is Spawn ==> spawned(events) - released < start.permits
            &&& phase is Acquire && acquired(events) == start.permits + released ==> spawned(events)
                - released == start.permits
        }),
{
    lemma_one_permit_each(start, events, events.len() as int);
    assert(events.take(events.len() as int) =~= events);
}

/// Whether `events[i]` takes the loop and what it asks for on, as a call of `step` does.
spec fn moves_on<E>(
    states: Seq<Drive>,
    actions: Seq<Action<E>>,
    events: Seq<Event<E>>,
    i: int,
) -> bool {
    &&& actions[i].answered_by(events[i])
    &&& states[i].phase == events[i].phase() ==> {
        &&& actions[i + 1] == states[i].next(events[i])
        &&& states[i + 1] == states[i].after(events[i])
    }
}

proof fn lemma_turn<E>(
    states: Seq<Drive>,
    actions: Seq<Action<E>>,
    events: Seq<Event<E>>,
    i: int,
)
    requires
        states.len() == actions.len() == events.len() + 1,
        states[0].phase == Phase::Acquire,
        actions[0] is Acquire,
        forall|j: int| 0 <= j < events.len() ==> #[trigger] moves_on(states, actions, events, j),
        0 <= i < actions.len(),
    ensures
        states[i].permits == states[0].permits,
        states[i].phase == actions[i].phase(),
        i % 3 == 0 ==> actions[i] is Acquire,
        i % 3 == 1 ==> actions[i] is Open,
        i % 3 == 2 ==> match events[i - 1] {
            Event::Opened(Ok(_)) => actions[i] is Spawn,
            Event::Opened(Err(error)) => actions[i] == Action::<E>::Return(error),
            _ => false,
        },
    decreases i,
{
    if i > 0 {
        lemma_turn(states, actions, events, i - 1);
        assert(moves_on(states, actions, events, i - 1));
    }
}

/// Whatever the number of permits, the loop waits for a permit, opens one stream with it, makes one
/// request on that stream, and starts over. Only a stream that cannot be opened ends it, with the
/// error of that stream. The loop starts with `new` and goes on with `step`: `calls` is the loop as
/// each call gets it, `states` what it is before and after. Whatever becomes of an operation can be
/// handed in.
pub proof fn law_each_permit_opens_one_stream_for_one_request<E>(
    concurrency: u64,
    states: Seq<Drive>,
    calls: Seq<&mut Drive>,
    actions: Seq<Action<E>>,
    events: Seq<Event<E>>,
    i: int,
)
    requires
        states.len() == actions.len() == events.len() + 1,
        calls.len() == events.len(),
        call_ensures(Drive::new::<E>, (concurrency,), (states[0], actions[0])),
        forall|j: int| 0 <= j < events.len() ==> (#[trigger] actions[j]).answered_by(events[j]),
        forall|j: int|
            #![trigger calls[j]]
            0 <= j < events.len() ==> {
                &&& *calls[j] == states[j]
                &&& *final(calls[j]) == states[j + 1]
                &&& call_requires(Drive::step::<E>, (calls[j], events[j])) ==> call_ensures(
                    Drive::step::<E>,
                    (calls[j], events[j]),
                    actions[j + 1],
                )
            },
        0 <= i < actions.len(),
    ensures
        call_requires(Drive::new::<E>, (concurrency,)),
        i < events.len() ==> call_requires(Drive::step::<E>, (calls[i], events[i])),
        concurrency <= usize::MAX ==> states[i].permits == concurrency,
        i % 3 == 0 ==> actions[i] is Acquire,
        i % 3 == 1 ==> actions[i] is Open,
        i % 3 == 2 ==> match events[i - 1] {
            Event::Opened(Ok(_)) => actions[i] is Spawn,
            Event::Opened(Err(error)) => actions[i] == Action::<E>::Return(error),
            _ => false,
        },
{
    assert forall|j: int| 0 <= j < events.len() implies #[trigger] moves_on(
        states,
        actions,
        events,
        j,
    ) by {
        assert(*calls[j] == states[j]);
        assert(actions[j].answered_by(events[j]));
    }
    lemma_turn(states, actions, events, i);
    if i < events.len() {
        assert(moves_on(states, actions, events, i));
        assert(*calls[i] == states[i]);
    }
}

} // verus!
