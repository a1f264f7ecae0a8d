//! Taking in what the peer opens: connections, and streams in either direction.

use vstd::prelude::*;

verus! {

/// What became of the last operation.
pub enum Event<E> {
    /// Something came (`true`), or nothing will come any more (`false`).
    Accepted(Result<bool, E>),
    Spawned,
}

/// The next operation.
pub enum Action<E> {
    /// Wait for the next arrival.
    Accept,
    /// Handle what came in a task of its own.
    Spawn,
    /// Stop taking in.
    Return(Result<(), E>),
}

/// The first operation: to wait.
pub fn start<E>() -> (action: Action<E>)
    ensures
        action == Action::<E>::Accept,
{
    Action::Accept
}

/// The operation that follows `event`. Everything that comes is handled, one task each, until
/// nothing comes any more or waiting fails.
pub fn next<E>(event: Event<E>) -> (action: Action<E>)
    ensures
        action == match event {
            Event::Accepted(Ok(true)) => Action::Spawn,
            Event::Accepted(Ok(false)) => Action::Return(Ok(())),
            Event::Accepted(Err(error)) => Action::Return(Err(error)),
            Event::Spawned => Action::Accept,
        },
{
    match event {
        Event::Accepted(Ok(true)) => Action::Spawn,
        Event::Accepted(Ok(false)) => Action::Return(Ok(())),
        Event::Accepted(Err(error)) => Action::Return(Err(error)),
        Event::Spawned => Action::Accept,
    }
}

impl<E> Action<E> {
    /// Whether `event` tells what became of the operation. Nothing comes after the end.
    pub open spec fn answered_by(self, event: Event<E>) -> bool {
        match self {
            Action::Accept => event is Accepted,
            Action::Spawn => event is Spawned,
            Action::Return(_) => false,
        }
    }
}

/// However much comes, the next arrival is waited for and then handled, in turn: each is handled
/// once. It ends exactly when nothing comes any more, well, or when waiting fails, with that error.
pub proof fn law_each_arrival_is_handled_once<E>(
    actions: Seq<Action<E>>,
    events: Seq<Event<E>>,
    i: int,
)
    requires
        actions.len() == events.len() + 1,
        call_ensures(start::<E>, (), actions[0]),
        forall|j: int| 0 <= j < events.len() ==> (#[trigger] actions[j]).answered_by(events[j]),
        forall|j: int|
            #![trigger events[j]]
            0 <= j < events.len() ==> call_ensures(next::<E>, (events[j],), actions[j + 1]),
        0 <= i < actions.len(),
    ensures
        call_requires(start::<E>, ()),
        i < events.len() ==> call_requires(next::<E>, (events[i],)),
        i % 2 == 0 ==> actions[i] is Accept,
        i % 2 == 1 ==> (events[i - 1] matches Event::Accepted(accepted) && match accepted {
            Ok(came) => if came {
                actions[i] is Spawn
            } else {
                actions[i] matches Action::Return(Ok(_))
            },
            Err(error) => actions[i] == Action::<E>::Return(Err(error)),
        }),
    decreases i,
{
    if i > 0 {
        law_each_arrival_is_handled_once(actions, events, i - 1);
        assert(actions[i - 1].answered_by(events[i - 1]));
        assert(call_ensures(next::<E>, (events[i - 1],), actions[i]));
    }
}

} // verus!
