use netbench_core::net::{IpAddr, SocketAddr};
use netbench_core::tcp::connection::{self, connection, HandleError, Handler};
use netbench_core::tcp::server::{self, Opts, Run, Server};
use std::sync::Arc;

const LOCALHOST: IpAddr = IpAddr::V4(0x7f00_0001);

#[derive(Clone, Default, Debug, PartialEq)]
struct Config {
    frame: Option<u32>,
}

/// A trace that tells how often it was cloned to get here.
struct Trace {
    name: &'static str,
    clones: u32,
}

impl Clone for Trace {
    fn clone(&self) -> Self {
        Trace {
            name: self.name,
            clones: self.clones + 1,
        }
    }
}

type Event = server::Event<char, Vec<u8>, Trace, &'static str>;
type Action = server::Action<char, Vec<u8>, Trace, Config, &'static str>;

fn start() -> (Run<Vec<u8>, Trace, Config>, Action) {
    let opts = Opts {
        ip: LOCALHOST,
        port: 4433,
    };
    Server { opts }.run()
}

fn scenario_loaded() -> Event {
    Event::ScenarioLoaded(Arc::new(vec![1, 2, 3]))
}

fn trace_opened() -> Event {
    Event::TraceOpened(Trace {
        name: "trace",
        clones: 0,
    })
}

fn listening() -> Run<Vec<u8>, Trace, Config> {
    let (mut run, _) = start();
    run.step(scenario_loaded());
    run.step(Event::Bound(Ok(())));
    run.step(trace_opened());
    run
}

#[test]
fn server_address_is_that_of_the_options() {
    let opts = Opts {
        ip: IpAddr::V6(1),
        port: 9,
    };
    let expected = SocketAddr {
        ip: IpAddr::V6(1),
        port: 9,
        flowinfo: 0,
        scope_id: 0,
    };
    assert_eq!(Server { opts }.server(), expected);
}

#[test]
fn server_starts_in_order() {
    let (mut run, first) = start();
    assert!(matches!(first, Action::LoadScenario));
    match run.step(scenario_loaded()) {
        Action::Bind(address) => assert_eq!(address, SocketAddr::new(LOCALHOST, 4433)),
        _ => panic!("the listener is not bound"),
    }
    assert!(matches!(run.step(Event::Bound(Ok(()))), Action::OpenTrace));
    assert!(matches!(run.step(trace_opened()), Action::Accept));
}

#[test]
fn server_numbers_connections_from_zero() {
    let mut run = listening();
    for expected in 0..100u64 {
        match run.step(Event::Accepted(Ok('k'))) {
            Action::Spawn(task) => assert_eq!(task.conn_id, expected),
            _ => panic!("the connection is not served"),
        }
        assert!(matches!(run.step(Event::Spawned), Action::Accept));
    }
}

#[test]
fn connections_share_scenario_trace_and_config() {
    let (mut run, _) = start();
    let scenario = Arc::new(vec![1, 2, 3]);
    run.step(Event::ScenarioLoaded(scenario.clone()));
    run.step(Event::Bound(Ok(())));
    run.step(trace_opened());
    for connection in ['a', 'b', 'c'] {
        match run.step(Event::Accepted(Ok(connection))) {
            Action::Spawn(task) => {
                assert_eq!(task.connection, connection);
                assert!(Arc::ptr_eq(&task.scenario, &scenario));
                assert_eq!(task.trace.name, "trace");
                assert_eq!(task.trace.clones, 1);
                assert_eq!(task.config, Config::default());
            }
            _ => panic!("the connection is not served"),
        }
        run.step(Event::Spawned);
    }
}

#[test]
fn server_ends_when_it_cannot_listen() {
    let (mut run, _) = start();
    run.step(scenario_loaded());
    let end = run.step(Event::Bound(Err("in use")));
    assert!(matches!(end, Action::Return("in use")));
}

#[test]
fn server_ends_when_it_cannot_accept() {
    let mut run = listening();
    let end = run.step(Event::Accepted(Err("too many files")));
    assert!(matches!(end, Action::Return("too many files")));
}

#[test]
fn connections_are_found_by_index() {
    let connections = ['a', 'b', 'c'];
    for (index, expected) in connections.iter().enumerate() {
        let found = connection::<char, ()>(&connections, index as u64);
        assert!(matches!(found, Ok(found) if found == expected));
    }
    let found = connection::<char, ()>(&connections, 3);
    assert!(matches!(found, Err(HandleError::InvalidConnectionId)));
    let found = connection::<char, ()>(&[], 0);
    assert!(matches!(found, Err(HandleError::InvalidConnectionId)));
}

#[test]
fn handler_serves_the_connection_asked_for() {
    let connections = ["first", "second"];
    let (mut handler, first) = Handler::new::<&str>(&connections, 7);
    assert!(matches!(first, connection::Action::ReadIndex));
    let open = handler.step::<&str>(connection::Event::Index(Ok(1)));
    assert!(matches!(open, connection::Action::Open(&"second")));
    let enter = handler.step::<&str>(connection::Event::Opened);
    assert!(matches!(enter, connection::Action::Enter { conn_id: 7, lane: 0 }));
    let drive = handler.step::<&str>(connection::Event::Entered);
    assert!(matches!(drive, connection::Action::Drive));
    let exit = handler.step::<&str>(connection::Event::Driven(Ok(())));
    assert!(matches!(exit, connection::Action::Exit));
    let end = handler.step::<&str>(connection::Event::Exited);
    assert!(matches!(end, connection::Action::Return(Ok(()))));
}

#[test]
fn handler_turns_unknown_connections_away() {
    let connections = ["only"];
    let (mut handler, _) = Handler::new::<&str>(&connections, 0);
    let end = handler.step::<&str>(connection::Event::Index(Ok(1)));
    assert!(matches!(
        end,
        connection::Action::Return(Err(HandleError::InvalidConnectionId))
    ));
}

#[test]
fn handler_gives_up_when_reading_the_index_fails() {
    let connections = ["only"];
    let (mut handler, _) = Handler::new::<&str>(&connections, 0);
    let end = handler.step(connection::Event::Index(Err("reset")));
    assert!(matches!(
        end,
        connection::Action::Return(Err(HandleError::Outside("reset")))
    ));
}

#[test]
fn handler_does_not_leave_the_trace_of_a_failed_driver() {
    let connections = ["only"];
    let (mut handler, _) = Handler::new::<&str>(&connections, 0);
    handler.step::<&str>(connection::Event::Index(Ok(0)));
    handler.step::<&str>(connection::Event::Opened);
    handler.step::<&str>(connection::Event::Entered);
    let end = handler.step(connection::Event::Driven(Err("broken")));
    assert!(matches!(
        end,
        connection::Action::Return(Err(HandleError::Outside("broken")))
    ));
}

#[test]
fn errors_are_reported_on_one_line() {
    let error: HandleError<String> = HandleError::InvalidConnectionId;
    assert_eq!(error.report(), "error: invalid connection id");
    let error = HandleError::Outside("early eof".to_string());
    assert_eq!(error.report(), "error: early eof");
}
