use bytes::Bytes;
use netbench_core::net::{IpAddr, SocketAddr};
use netbench_core::perf::buffer::total_len;
use netbench_core::perf::client::drain::{self, Drain};
use netbench_core::perf::client::drive::{self, Drive};
use netbench_core::perf::client::endpoint::{bind_addr, endpoint, PortError, Target};
use netbench_core::perf::client::exchange::{self, Exchange, Response};
use netbench_core::perf::client::request::{self, Request};
use netbench_core::perf::client::session::{close_code, run_time, Cause, Span};
use netbench_core::perf::client::stats::{Action, Event, Report};
use netbench_core::perf::data::Data;
use netbench_core::perf::error::{Failed, PerfError};

const MIB: usize = 1024 * 1024;

#[test]
fn request_sends_header_and_chunks() {
    let data = Data::new();
    let (mut request, mut action) = Request::new::<&str>(&data, MIB as u64 + 5, 3);
    let mut sent: Vec<usize> = Vec::new();
    let mut recorded: Vec<usize> = Vec::new();
    let mut closed = false;
    let mut finished = false;
    loop {
        let event = match action {
            request::Action::Send(buffer) => {
                if sent.is_empty() {
                    assert_eq!(&buffer[..], &[0, 0, 0, 0, 0, 0, 0, 3]);
                } else {
                    assert!(buffer.iter().all(|byte| *byte == 42));
                }
                sent.push(buffer.len());
                request::Event::Sent(Ok(()))
            }
            request::Action::OpenStats { upload } => {
                assert_eq!(upload, MIB as u64 + 5);
                assert_eq!(sent.len(), 1);
                request::Event::StatsOpened
            }
            request::Action::RecordBytes(len) => {
                recorded.push(len);
                request::Event::Recorded
            }
            request::Action::Close => {
                closed = true;
                request::Event::Closed(Ok(()))
            }
            request::Action::Finish => {
                assert!(closed);
                finished = true;
                request::Event::Finished
            }
            request::Action::Return(result) => {
                assert!(result.is_ok());
                break;
            }
        };
        action = request.step(event);
    }
    assert!(finished);
    assert_eq!(sent, [8, MIB, 5]);
    assert_eq!(recorded, [MIB, 5]);
}

#[test]
fn empty_request_is_header_and_close() {
    let data = Data::new();
    let (mut request, first) = Request::new::<&str>(&data, 0, u64::MAX);
    match first {
        request::Action::Send(header) => assert_eq!(&header[..], &[0xff; 8]),
        _ => panic!("the header is not sent"),
    }
    let close = request.step::<&str>(request::Event::Sent(Ok(())));
    assert!(matches!(close, request::Action::Close));
    let end = request.step::<&str>(request::Event::Closed(Ok(())));
    assert!(matches!(end, request::Action::Return(Ok(()))));
}

#[test]
fn request_ends_with_the_first_failure() {
    let data = Data::new();
    let (mut request, _) = Request::new::<&str>(&data, 1, 1);
    let end = request.step(request::Event::Sent(Err("reset")));
    assert!(matches!(end, request::Action::Return(Err(PerfError::Outside("reset")))));

    let (mut request, _) = Request::new::<&str>(&data, 1, 1);
    request.step::<&str>(request::Event::Sent(Ok(())));
    request.step::<&str>(request::Event::StatsOpened);
    let end = request.step(request::Event::Sent(Err("reset")));
    assert!(matches!(
        end,
        request::Action::Return(Err(PerfError::SendingResponse("reset")))
    ));

    let (mut request, _) = Request::new::<&str>(&data, 0, 1);
    request.step::<&str>(request::Event::Sent(Ok(())));
    let end = request.step(request::Event::Closed(Err("reset")));
    assert!(matches!(end, request::Action::Return(Err(PerfError::Outside("reset")))));
}

#[test]
fn drain_records_what_comes() {
    let (mut drain, first) = Drain::new::<&str>(10);
    assert!(matches!(first, drain::Action::OpenStats { download: 10 }));
    assert!(matches!(drain.step::<&str>(drain::Event::StatsOpened), drain::Action::Receive));
    let next = drain.step::<&str>(drain::Event::Received(Ok((4, true))));
    assert!(matches!(next, drain::Action::RecordFirstByte));
    let next = drain.step::<&str>(drain::Event::FirstByteRecorded);
    assert!(matches!(next, drain::Action::RecordBytes(4)));
    assert!(matches!(drain.step::<&str>(drain::Event::Recorded), drain::Action::Receive));
    let next = drain.step::<&str>(drain::Event::Received(Ok((6, false))));
    assert!(matches!(next, drain::Action::RecordBytes(6)));
    assert!(matches!(drain.step::<&str>(drain::Event::Recorded), drain::Action::Finish));
    let end = drain.step::<&str>(drain::Event::Finished);
    assert!(matches!(end, drain::Action::Return(Ok(()))));
}

#[test]
fn drain_records_the_start_of_an_empty_response() {
    let (mut drain, _) = Drain::new::<&str>(0);
    drain.step::<&str>(drain::Event::StatsOpened);
    let next = drain.step::<&str>(drain::Event::Received(Ok((0, false))));
    assert!(matches!(next, drain::Action::RecordFirstByte));
    let next = drain.step::<&str>(drain::Event::FirstByteRecorded);
    assert!(matches!(next, drain::Action::RecordBytes(0)));
    assert!(matches!(drain.step::<&str>(drain::Event::Recorded), drain::Action::Finish));
}

#[test]
fn drain_ends_when_receiving_fails() {
    let (mut drain, _) = Drain::new::<&str>(1);
    drain.step::<&str>(drain::Event::StatsOpened);
    let end = drain.step(drain::Event::Received(Err("reset")));
    assert!(matches!(end, drain::Action::Return(Err(PerfError::Outside("reset")))));
}

#[test]
fn received_buffers_are_summed() {
    let buffers = [
        Bytes::from_static(b"abc"),
        Bytes::new(),
        Bytes::from_static(b"de"),
        Bytes::from_static(b"f"),
    ];
    assert_eq!(total_len(&buffers, 0), Some(0));
    assert_eq!(total_len(&buffers, 3), Some(5));
    assert_eq!(total_len(&buffers, 4), Some(6));
}

#[test]
fn one_way_exchange_waits_for_a_stream() {
    let (mut exchange, first) = Exchange::new::<&str>(Response::NextStream);
    assert!(matches!(first, exchange::Action::Request));
    assert!(matches!(exchange.step::<&str>(exchange::Event::Requested(Ok(()))), exchange::Action::Accept));
    assert!(matches!(exchange.step::<&str>(exchange::Event::Accepted(Ok(true))), exchange::Action::Drain));
    let end = exchange.step::<&str>(exchange::Event::Drained(Ok(())));
    assert!(matches!(end, exchange::Action::Return(Ok(()))));
}

#[test]
fn two_way_exchange_reads_its_own_stream() {
    let (mut exchange, _) = Exchange::new::<&str>(Response::SameStream);
    assert!(matches!(exchange.step::<&str>(exchange::Event::Requested(Ok(()))), exchange::Action::Drain));
}

#[test]
fn exchange_ends_with_the_first_failure() {
    let (mut exchange, _) = Exchange::new::<&str>(Response::SameStream);
    let end = exchange.step(exchange::Event::Requested(Err(PerfError::Outside("reset"))));
    assert!(matches!(end, exchange::Action::Return(Err(PerfError::Outside("reset")))));

    let (mut exchange, _) = Exchange::new::<&str>(Response::NextStream);
    exchange.step::<&str>(exchange::Event::Requested(Ok(())));
    let end = exchange.step::<&str>(exchange::Event::Accepted(Ok(false)));
    assert!(matches!(end, exchange::Action::Return(Err(PerfError::StreamClosed))));

    let (mut exchange, _) = Exchange::new::<&str>(Response::NextStream);
    exchange.step::<&str>(exchange::Event::Requested(Ok(())));
    let end = exchange.step(exchange::Event::Accepted(Err("closed")));
    assert!(matches!(end, exchange::Action::Return(Err(PerfError::Outside("closed")))));
}

#[test]
fn requests_are_made_one_permit_each() {
    let (mut drive, first) = Drive::new::<&str>(3);
    assert_eq!(drive.permits, 3);
    assert!(matches!(first, drive::Action::Acquire));
    for _ in 0..5 {
        assert!(matches!(drive.step::<&str>(drive::Event::Acquired), drive::Action::Open));
        assert!(matches!(drive.step::<&str>(drive::Event::Opened(Ok(()))), drive::Action::Spawn));
        assert!(matches!(drive.step::<&str>(drive::Event::Spawned), drive::Action::Acquire));
    }
    drive.step::<&str>(drive::Event::Acquired);
    let end = drive.step(drive::Event::Opened(Err("closed")));
    assert!(matches!(end, drive::Action::Return("closed")));
}

#[test]
fn client_runs_a_little_longer() {
    let expected = Span {
        secs: 60,
        nanos: 200_000_000,
    };
    assert_eq!(run_time(60), expected);
}

#[test]
fn client_closes_the_connection_when_it_is_stopped() {
    assert_eq!(close_code(Cause::Interrupt), Some(0));
    assert_eq!(close_code(Cause::Deadline), Some(0));
    assert_eq!(close_code(Cause::Drive), None);
    assert_eq!(close_code(Cause::Stats), None);
}

const IP: IpAddr = IpAddr::V4(0x0a00_0001);

fn port(host: &str) -> Result<u16, PortError> {
    match endpoint(host, Some(IP))?.target {
        Target::Direct(addr) => {
            assert_eq!(addr, SocketAddr::new(IP, addr.port));
            Ok(addr.port)
        }
        Target::Resolve(_) => panic!("the address is given"),
    }
}

#[test]
fn hosts_name_servers_and_ports() {
    assert_eq!(port("localhost:4433"), Ok(4433));
    assert_eq!(port("localhost"), Ok(443));
    assert_eq!(port("localhost:1:2"), Ok(1));
    let server = endpoint("localhost:4433", None);
    let server = server.unwrap_or_else(|_| panic!("the host is valid"));
    assert_eq!(server.server_name, "localhost");
    assert!(matches!(server.target, Target::Resolve(host) if host == "localhost:4433"));
}

#[test]
fn ports_are_checked_even_when_the_host_is_looked_up() {
    assert!(matches!(endpoint("localhost:x", None), Err(PortError::InvalidDigit)));
}

#[test]
fn ports_are_parsed_as_the_standard_library_does() {
    let cases = [
        "", "+", "-", "+1", "-1", "++1", "0", "65535", "65536", "00065535", "99999x", "6553x9",
        "1 ", " 1", "4433", "\u{e9}", "12\u{e9}", "655360", "1+", "\u{661}",
    ];
    for text in cases {
        let expected = text.parse::<u16>().map_err(|error| error.to_string());
        let found = port(&format!("host:{}", text));
        if let Err(error) = found {
            assert_eq!(error.message(), "parsing port");
        }
        assert_eq!(found.map_err(|error| error.cause()), expected);
    }
}

#[test]
fn client_binds_to_the_family_of_the_server() {
    let v4 = SocketAddr::new(IP, 4433);
    let v6 = SocketAddr::new(IpAddr::V6(1), 4433);
    assert_eq!(bind_addr(None, v4), SocketAddr::new(IpAddr::V4(0), 0));
    assert_eq!(bind_addr(None, v6), SocketAddr::new(IpAddr::V6(0), 0));
    assert_eq!(bind_addr(Some(v6), v4), v6);
}

#[test]
fn failed_exchanges_are_told_apart() {
    assert_eq!(Response::NextStream.failed(), Failed::SendingRequest);
    assert_eq!(Response::SameStream.failed(), Failed::Request);
}

#[test]
fn requests_under_way_are_bounded_by_the_permits() {
    let (mut drive, mut action) = Drive::new::<&str>(2);
    let mut free = drive.permits;
    let mut going: usize = 0;
    loop {
        let event = match action {
            drive::Action::Acquire if free == 0 => break,
            drive::Action::Acquire => {
                free -= 1;
                drive::Event::Acquired
            }
            drive::Action::Open => drive::Event::Opened(Ok(())),
            drive::Action::Spawn => {
                going += 1;
                assert!(going <= 2);
                drive::Event::Spawned
            }
            drive::Action::Return(_) => panic!("every stream was opened"),
        };
        action = drive.step(event);
    }
    assert_eq!(going, 2);
}

#[test]
fn statistics_are_reported_every_interval() {
    let sleep = Action::Sleep(Span { secs: 7, nanos: 0 });
    let (mut report, first) = Report::new(7);
    assert_eq!(first, sleep);
    for _ in 0..3 {
        assert_eq!(report.step(Event::Slept), Action::Take);
        assert_eq!(report.step(Event::Taken), Action::Print);
        assert_eq!(report.step(Event::Printed), sleep);
    }
}
