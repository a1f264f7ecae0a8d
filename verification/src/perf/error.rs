//! What can go wrong with a request.

use vstd::prelude::*;
use vstd::string::StringExecFns;

verus! {

/// Why a request was given up. `E` is the error of the connection.
pub enum PerfError<E> {
    /// An operation failed.
    Outside(E),
    /// Sending a chunk failed.
    SendingResponse(E),
    /// Reading the header of a request failed.
    ReadingRequest(E),
    /// The request ended before its header.
    NoRequest,
    /// The connection ended before the response.
    StreamClosed,
}

/// What an error put an end to.
#[derive(Clone, Copy, Debug, PartialEq, Eq, Structural)]
pub enum Failed {
    /// A request of the client that went out on a one-way stream.
    SendingRequest,
    /// Any other request, on either side.
    Request,
    /// A connection of the server.
    Connection,
}

impl Failed {
    /// How a line that reports the error starts.
    pub open spec fn text(self) -> Seq<char> {
        match self {
            Failed::SendingRequest => "sending request failed: "@,
            Failed::Request => "request failed: "@,
            Failed::Connection => "connection lost: "@,
        }
    }
}

impl PerfError<String> {
    /// What is said of the error: what was attempted, where that is known, and what came of it.
    pub open spec fn text(self) -> Seq<char> {
        match self {
            PerfError::Outside(cause) => cause@,
            PerfError::SendingResponse(cause) => "sending response: "@ + cause@,
            PerfError::ReadingRequest(cause) => "reading request: "@ + cause@,
            PerfError::NoRequest => "Failed to read in read_req"@,
            PerfError::StreamClosed => "Stream unceremoniously closed"@,
        }
    }

    /// What is said of the error.
    pub fn message(&self) -> (message: String)
        ensures
            message@ == self.text(),
    {
        match self {
            PerfError::Outside(cause) => cause.clone(),
            PerfError::SendingResponse(cause) => String::from_str("sending response: ").concat(
                cause.as_str(),
            ),
            PerfError::ReadingRequest(cause) => String::from_str("reading request: ").concat(
                cause.as_str(),
            ),
            PerfError::NoRequest => String::from_str("Failed to read in read_req"),
            PerfError::StreamClosed => String::from_str("Stream unceremoniously closed"),
        }
    }

    /// The line that reports the error.
    pub fn report(&self, failed: Failed) -> (line: String)
        ensures
            line@ == failed.text() + self.text(),
    {
        let start = match failed {
            Failed::SendingRequest => "sending request failed: ",
            Failed::Request => "request failed: ",
            Failed::Connection => "connection lost: ",
        };
        String::from_str(start).concat(self.message().as_str())
    }
}

/// What is said of an error ends with all of what is said of its cause, however long that is.
/// Before it stands what was attempted, where that is known.
pub proof fn law_messages_hold_their_causes(error: PerfError<String>, message: String)
    requires
        call_ensures(PerfError::<String>::message, (&error,), message),
    ensures
        call_requires(PerfError::<String>::message, (&error,)),
        match error {
            PerfError::Outside(cause) => message@ == cause@,
            PerfError::SendingResponse(cause) => {
                &&& message@.len() == 18 + cause@.len()
                &&& message@.take(18) == "sending response: "@
                &&& message@.skip(18) == cause@
            },
            PerfError::ReadingRequest(cause) => {
                &&& message@.len() == 17 + cause@.len()
                &&& message@.take(17) == "reading request: "@
                &&& message@.skip(17) == cause@
            },
            PerfError::NoRequest => message@ == "Failed to read in read_req"@,
            PerfError::StreamClosed => message@ == "Stream unceremoniously closed"@,
        },
{
    reveal_strlit("sending response: ");
    reveal_strlit("reading request: ");
    if let PerfError::SendingResponse(cause) = error {
        assert(message@.take(18) =~= "sending response: "@);
        assert(message@.skip(18) =~= cause@);
    }
    if let PerfError::ReadingRequest(cause) = error {
        assert(message@.take(17) =~= "reading request: "@);
        assert(message@.skip(17) =~= cause@);
    }
}

/// A line that reports an error ends with the message of that error, whatever it put an end to.
/// What stands before it tells what that was, and is the same for every error.
pub proof fn law_reports_end_with_the_message(
    error: PerfError<String>,
    failed: Failed,
    message: String,
    line: String,
)
    requires
        call_ensures(PerfError::<String>::message, (&error,), message),
        call_ensures(PerfError::<String>::report, (&error, failed), line),
    ensures
        call_requires(PerfError::<String>::message, (&error,)),
        call_requires(PerfError::<String>::report, (&error, failed)),
        match failed {
            Failed::SendingRequest => line@ == "sending request failed: "@ + message@,
            Failed::Request => line@ == "request failed: "@ + message@,
            Failed::Connection => line@ == "connection lost: "@ + message@,
        },
{
}

} // verus!
