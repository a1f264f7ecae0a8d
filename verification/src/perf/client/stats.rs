//! Reporting statistics at an interval.

use crate::perf::client::session::Span;
use vstd::prelude::*;

verus! {

/// What the loop is waiting for.
#[derive(Clone, Copy, Debug, PartialEq, Eq, Structural)]
pub enum Phase {
    Sleep,
    Take,
    Print,
}

/// What has been done.
#[derive(Clone, Copy, Debug, PartialEq, Eq, Structural)]
pub enum Event {
    Slept,
    Taken,
    Printed,
}

/// The next operation. None ends the loop.
#[derive(Clone, Copy, Debug, PartialEq, Eq, Structural)]
pub enum Action {
    /// Note the time and sleep this long.
    Sleep(Span),
    /// Take the statistics of the time since the one noted.
    Take,
    /// Print the statistics that were taken.
    Print,
}

/// The loop that reports statistics.
#[derive(Clone, Copy, Debug, PartialEq, Eq, Structural)]
pub struct Report {
    /// How many seconds lie between two reports.
    pub interval: u64,
    pub phase: Phase,
}

impl Event {
    /// The phase in which the event can come.
    pub open spec fn phase(self) -> Phase {
        match self {
            Event::Slept => Phase::Sleep,
            Event::Taken => Phase::Take,
            Event::Printed => Phase::Print,
        }
    }
}

impl Action {
    /// The phase in which the operation is awaited.
    pub open spec fn phase(self) -> Phase {
        match self {
            Action::Sleep(_) => Phase::Sleep,
            Action::Take => Phase::Take,
            Action::Print => Phase::Print,
        }
    }

    /// Whether `event` tells that the operation has been done.
    pub open spec fn answered_by(self, event: Event) -> bool {
        match self {
            Action::Sleep(_) => event is Slept,
            Action::Take => event is Taken,
            Action::Print => event is Printed,
        }
    }
}

impl Report {
    /// The operation that follows `event`.
    pub open spec fn next(self, event: Event) -> Action {
        match event {
            Event::Slept => Action::Take,
            Event::Taken => Action::Print,
            Event::Printed => Action::Sleep(Span { secs: self.interval, nanos: 0 }),
        }
    }

    /// The state after `event`.
    pub open spec fn after(self, event: Event) -> Report {
        Report { interval: self.interval, phase: self.next(event).phase() }
    }

    /// Starts to report every `interval` seconds: the first thing to do is to sleep that long.
    pub fn new(interval: u64) -> (started: (Report, Action))
        ensures
            started.0 == (Report { interval, phase: Phase::Sleep }),
            started.1 == Action::Sleep(Span { secs: interval, nanos: 0 }),
    {
        let sleep = Action::Sleep(Span { secs: interval, nanos: 0 });
        (Report { interval, phase: Phase::Sleep }, sleep)
    }

    /// Takes in what has been done and gives the next operation.
    pub fn step(&mut self, event: Event) -> (action: Action)
        requires
            old(self).phase == event.phase(),
        ensures
            action == old(self).next(event),
            *final(self) == old(self).after(event),
    {
        match event {
            Event::Slept => {
                self.phase = Phase::Take;
                Action::Take
            },
            Event::Taken => {
                self.phase = Phase::Print;
                Action::Print
            },
            Event::Printed => {
                self.phase = Phase::Sleep;
                Action::Sleep(Span { secs: self.interval, nanos: 0 })
            },
        }
    }

    /// The state after all of `events`, in order.
    pub open spec fn after_all(self, events: Seq<Event>) -> Report
        decreases events.len(),
    {
        if events.len() == 0 {
            self
        } else {
            self.after_all(events.drop_last()).after(events.last())
        }
    }

    /// Whether every one of `events` can come when the ones before it have.
    pub open spec fn awaits_all(self, events: Seq<Event>) -> bool {
        forall|i: int|
            0 <= i < events.len() ==> #[trigger] self.after_all(events.take(i)).phase
                == events[i].phase()
    }

    /// The operation that follows `events[i]`, when all of `events` come in order.
    pub open spec fn next_at(self, events: Seq<Event>, i: int) -> Action {
        self.after_all(events.take(i)).next(events[i])
    }
}

/// The loop sleeps for the interval, takes the statistics of it and prints them, over and over: no
/// interval goes without a report, and none is reported twice.
pub proof fn law_every_interval_is_reported(start: Report, events: Seq<Event>, i: int)
    requires
        start.phase == Phase::Sleep,
        start.awaits_all(events),
        0 <= i < events.len(),
    ensures
        start.after_all(events.take(i)).interval == start.interval,
        events[i] == if i % 3 == 0 {
            Event::Slept
        } else if i % 3 == 1 {
            Event::Taken
        } else {
            Event::Printed
        },
        start.next_at(events, i) == if i % 3 == 0 {
            Action::Take
        } else if i % 3 == 1 {
            Action::Print
        } else {
            Action::Sleep(Span { secs: start.interval, nanos: 0 })
        },
    decreases i,
{
    assert(start.after_all(events.take(i)).phase == events[i].phase());
    if i > 0 {
        law_every_interval_is_reported(start, events, i - 1);
        assert(events.take(i).drop_last() =~= events.take(i - 1));
    }
}

/// Whether `events[i]` takes the loop and what it asks for on, as a call of `step` does.
spec fn moves_on(
    states: Seq<Report>,
    actions: Seq<Action>,
    events: Seq<Event>,
    i: int,
) -> bool {
    &&& actions[i].answered_by(events[i])
    &&& states[i].phase == events[i].phase() ==> {
        &&& actions[i + 1] == states[i].next(events[i])
        &&& states[i + 1] == states[i].after(events[i])
    }
}

proof fn lemma_turn(states: Seq<Report>, actions: Seq<Action>, events: Seq<Event>, i: int)
    requires
        states.len() == actions.len() == events.len() + 1,
        states[0].phase == Phase::Sleep,
        actions[0] == Action::Sleep(Span { secs: states[0].interval, nanos: 0 }),
        forall|j: int| 0 <= j < events.len() ==> #[trigger] moves_on(states, actions, events, j),
        0 <= i < actions.len(),
    ensures
        states[i].interval == states[0].interval,
        states[i].phase == actions[i].phase(),
        i % 3 == 0 ==> actions[i] == actions[0],
        i % 3 == 1 ==> actions[i] is Take,
        i % 3 == 2 ==> actions[i] is Print,
    decreases i,
{
    if i > 0 {
        lemma_turn(states, actions, events, i - 1);
        assert(moves_on(states, actions, events, i - 1));
    }
}

/// Whatever the interval, the loop sleeps for that many seconds, takes statistics once, prints them
/// once, and starts over, without an end. The loop starts with `new` and goes on with `step`:
/// `calls` is the loop as each call gets it, `states` what it is before and after. Whatever has
/// been done can be handed in.
pub proof fn law_reports_are_an_interval_apart(
    interval: u64,
    states: Seq<Report>,
    calls: Seq<&mut Report>,
    actions: Seq<Action>,
    events: Seq<Event>,
    i: int,
)
    requires
        states.len() == actions.len() == events.len() + 1,
        calls.len() == events.len(),
        call_ensures(Report::new, (interval,), (states[0], actions[0])),
        forall|j: int| 0 <= j < events.len() ==> (#[trigger] actions[j]).answered_by(events[j]),
        forall|j: int|
            #![trigger calls[j]]
            0 <= j < events.len() ==> {
                &&& *calls[j] == states[j]
                &&& *final(calls[j]) == states[j + 1]
                &&& call_requires(Report::step, (calls[j], events[j])) ==> call_ensures(
                    Report::step,
                    (calls[j], events[j]),
                    actions[j + 1],
                )
            },
        0 <= i < actions.len(),
    ensures
        call_requires(Report::new, (interval,)),
        i < events.len() ==> call_requires(Report::step, (calls[i], events[i])),
        i % 3 == 0 ==> (actions[i] matches Action::Sleep(span) && span.secs == interval
            && span.nanos == 0),
        i % 3 == 1 ==> actions[i] is Take,
        i % 3 == 2 ==> actions[i] is Print,
{
    assert forall|j: int| 0 <= j < events.len() implies #[trigger] moves_on(
        states,
        actions,
        events,
        j,
    ) by {
        assert(*calls[j] == states[j]);
        assert(actions[j].answered_by(events[j]));
    }
    lemma_turn(states, actions, events, i);
    if i < events.len() {
        assert(moves_on(states, actions, events, i));
        assert(*calls[i] == states[i]);
    }
}

} // verus!
