use bytes::Bytes;
use netbench_core::perf::data::Data;
use netbench_core::perf::error::{Failed, PerfError};
use netbench_core::perf::server::handle::{self, Handle, Reply};
use netbench_core::perf::server::intake;
use netbench_core::perf::server::read::{self, ReadReq};
use netbench_core::perf::server::respond::{self, Respond};

const MIB: usize = 1024 * 1024;

/// The lengths of the chunks that a response is sent in.
fn response_chunks(bytes: u64) -> Vec<usize> {
    let data = Data::new();
    let mut chunks = Vec::new();
    let (mut respond, mut action) = Respond::new::<&str>(&data, bytes);
    loop {
        match action {
            respond::Action::Send(chunk) => {
                assert!(chunk.iter().all(|byte| *byte == 42));
                chunks.push(chunk.len());
            }
            respond::Action::Return(result) => {
                assert!(result.is_ok());
                return chunks;
            }
        }
        action = respond.step(respond::Event::Sent(Ok(())));
    }
}

#[test]
fn responses_are_cut_into_chunks() {
    assert!(response_chunks(0).is_empty());
    assert_eq!(response_chunks(1), [1]);
    assert_eq!(response_chunks(MIB as u64), [MIB]);
    assert_eq!(response_chunks(MIB as u64 + 1), [MIB, 1]);
    assert_eq!(response_chunks(3 * MIB as u64), [MIB, MIB, MIB]);
}

#[test]
fn response_ends_when_sending_fails() {
    let data = Data::new();
    let (mut respond, _) = Respond::new::<&str>(&data, 5);
    let end = respond.step(respond::Event::Sent(Err("reset")));
    assert!(matches!(
        end,
        respond::Action::Return(Err(PerfError::SendingResponse("reset")))
    ));
}

#[test]
fn request_is_read_to_its_end() {
    let (mut read, first) = ReadReq::new::<&str>();
    assert!(matches!(first, read::Action::ReceiveHeader));
    let header = Bytes::from_static(&[0, 0, 0, 0, 0, 0, 1, 2]);
    let next = read.step::<&str>(read::Event::Header(Ok(Some(header))));
    assert!(matches!(next, read::Action::Receive));
    let next = read.step::<&str>(read::Event::Received(Ok(true)));
    assert!(matches!(next, read::Action::Receive));
    let end = read.step::<&str>(read::Event::Received(Ok(false)));
    assert!(matches!(end, read::Action::Return(Ok(258))));
}

#[test]
fn request_without_header_is_refused() {
    let (mut read, _) = ReadReq::new::<&str>();
    let end = read.step::<&str>(read::Event::Header(Ok(None)));
    assert!(matches!(
        end,
        read::Action::Return(Err(PerfError::NoRequest))
    ));
}

#[test]
fn request_ends_when_reading_fails() {
    let (mut read, _) = ReadReq::new::<&str>();
    let end = read.step(read::Event::Header(Err("reset")));
    assert!(matches!(
        end,
        read::Action::Return(Err(PerfError::ReadingRequest("reset")))
    ));

    let (mut read, _) = ReadReq::new::<&str>();
    read.step::<&str>(read::Event::Header(Ok(Some(Bytes::from_static(&[0; 8])))));
    let end = read.step(read::Event::Received(Err("reset")));
    assert!(matches!(
        end,
        read::Action::Return(Err(PerfError::Outside("reset")))
    ));
}

#[test]
fn one_way_requests_are_answered_on_a_new_stream() {
    let (mut handle, first) = Handle::new::<&str>(Reply::NewStream);
    assert!(matches!(first, handle::Action::ReadRequest));
    let next = handle.step::<&str>(handle::Event::Read(Ok(9)));
    assert!(matches!(next, handle::Action::OpenStream));
    let next = handle.step::<&str>(handle::Event::Opened(Ok(())));
    assert!(matches!(next, handle::Action::Respond { bytes: 9 }));
    let end = handle.step::<&str>(handle::Event::Responded(Ok(())));
    assert!(matches!(end, handle::Action::Return(Ok(()))));
}

#[test]
fn two_way_requests_are_answered_on_their_stream() {
    let (mut handle, _) = Handle::new::<&str>(Reply::SameStream);
    let next = handle.step::<&str>(handle::Event::Read(Ok(9)));
    assert!(matches!(next, handle::Action::Respond { bytes: 9 }));
    let failed = PerfError::SendingResponse("reset");
    let end = handle.step(handle::Event::Responded(Err(failed)));
    assert!(matches!(
        end,
        handle::Action::Return(Err(PerfError::SendingResponse("reset")))
    ));
}

#[test]
fn requests_end_with_the_first_failure() {
    let (mut handle, _) = Handle::new::<&str>(Reply::NewStream);
    let end = handle.step::<&str>(handle::Event::Read(Err(PerfError::NoRequest)));
    assert!(matches!(
        end,
        handle::Action::Return(Err(PerfError::NoRequest))
    ));

    let (mut handle, _) = Handle::new::<&str>(Reply::NewStream);
    handle.step::<&str>(handle::Event::Read(Ok(9)));
    let end = handle.step(handle::Event::Opened(Err("closed")));
    assert!(matches!(
        end,
        handle::Action::Return(Err(PerfError::Outside("closed")))
    ));
}

#[test]
fn everything_that_comes_is_handled() {
    assert!(matches!(intake::start::<&str>(), intake::Action::Accept));
    assert!(matches!(intake::next::<&str>(intake::Event::Accepted(Ok(true))), intake::Action::Spawn));
    assert!(matches!(intake::next::<&str>(intake::Event::Spawned), intake::Action::Accept));
    let end = intake::next::<&str>(intake::Event::Accepted(Ok(false)));
    assert!(matches!(end, intake::Action::Return(Ok(()))));
    let end = intake::next(intake::Event::Accepted(Err("closed")));
    assert!(matches!(end, intake::Action::Return(Err("closed"))));
}

#[test]
fn errors_say_what_was_attempted() {
    let cause = || "reset".to_string();
    assert_eq!(PerfError::Outside(cause()).message(), "reset");
    assert_eq!(
        PerfError::SendingResponse(cause()).message(),
        "sending response: reset"
    );
    assert_eq!(
        PerfError::ReadingRequest(cause()).message(),
        "reading request: reset"
    );
    let error: PerfError<String> = PerfError::NoRequest;
    assert_eq!(error.message(), "Failed to read in read_req");
    let error: PerfError<String> = PerfError::StreamClosed;
    assert_eq!(error.message(), "Stream unceremoniously closed");
}

#[test]
fn reports_say_what_failed() {
    let error = PerfError::SendingResponse("reset".to_string());
    assert_eq!(
        error.report(Failed::SendingRequest),
        "sending request failed: sending response: reset"
    );
    let error: PerfError<String> = PerfError::NoRequest;
    assert_eq!(
        error.report(Failed::Request),
        "request failed: Failed to read in read_req"
    );
    let error = PerfError::Outside("timed out".to_string());
    assert_eq!(error.report(Failed::Connection), "connection lost: timed out");
}
