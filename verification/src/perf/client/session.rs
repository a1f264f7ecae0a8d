//! How long the client runs and how it stops.

use vstd::prelude::*;

verus! {

/// A length of time: whole seconds and the nanoseconds on top of them.
#[derive(Clone, Copy, Debug, PartialEq, Eq, Structural)]
pub struct Span {
    pub secs: u64,
    pub nanos: u32,
}

/// Why the client stops.
#[derive(Clone, Copy, Debug, PartialEq, Eq, Structural)]
pub enum Cause {
    /// No more requests can be made.
    Drive,
    /// No more statistics can be taken.
    Stats,
    /// The user asked for it.
    Interrupt,
    /// The time is up.
    Deadline,
}

/// How long the client runs when it is to run for `duration` seconds: a fifth of a second more, so
/// that the last interval can be reported.
pub fn run_time(duration: u64) -> (span: Span)
    ensures
        span == (Span { secs: duration, nanos: 200_000_000 }),
{
    Span { secs: duration, nanos: 200_000_000 }
}

/// The code to close the connection with, if the client closes it.
pub fn close_code(cause: Cause) -> (code: Option<u32>)
    ensures
        code == match cause {
            Cause::Interrupt | Cause::Deadline => Some(0u32),
            Cause::Drive | Cause::Stats => None,
        },
{
    match cause {
        Cause::Interrupt | Cause::Deadline => Some(0),
        Cause::Drive | Cause::Stats => None,
    }
}

/// The client runs a fifth of a second longer than it is told to, to the nanosecond.
pub proof fn law_runs_last_a_fifth_of_a_second_longer(duration: u64, span: Span)
    requires
        call_ensures(run_time, (duration,), span),
    ensures
        call_requires(run_time, (duration,)),
        5 * (span.secs * 1_000_000_000 + span.nanos) == 5 * (duration * 1_000_000_000)
            + 1_000_000_000,
        span.nanos < 1_000_000_000,
{
}

/// The client closes the connection itself exactly when it stops of its own accord, and then always
/// with the same code.
pub proof fn law_only_willing_clients_close(
    one: Cause,
    code: Option<u32>,
    other: Cause,
    other_code: Option<u32>,
)
    requires
        call_ensures(close_code, (one,), code),
        call_ensures(close_code, (other,), other_code),
    ensures
        call_requires(close_code, (one,)),
        call_requires(close_code, (other,)),
        code is Some <==> one is Interrupt || one is Deadline,
        code is Some && other_code is Some ==> code == other_code,
        code matches Some(number) ==> number == 0,
{
}

} // verus!
