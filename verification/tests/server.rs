use std::io::{Error as IoError, ErrorKind};
use std::time::Duration;

use poem::server::{Acceptor, Action, Event, Phase, Server, Supervisor};

/// An acceptor that is bound to fixed ports, or cannot tell.
struct Ports(Vec<u16>);

impl Acceptor for Ports {
    type Addr = u16;

    fn local_addr(&self) -> Result<Vec<u16>, IoError> {
        if self.0.is_empty() {
            Err(IoError::new(ErrorKind::NotConnected, "not bound"))
        } else {
            Ok(self.0.clone())
        }
    }
}

fn running(alive: usize, timeout: Option<Duration>) -> Supervisor {
    let mut supervisor = Supervisor::new(timeout);
    for _ in 0..alive {
        supervisor.step(Event::Accepted);
    }
    supervisor
}

#[test]
fn a_supervisor_starts_running_with_no_connection() {
    let supervisor = Supervisor::new(None);
    assert_eq!(supervisor.phase(), Phase::Running);
    assert_eq!(supervisor.alive(), 0);
    assert_eq!(supervisor.timeout(), None);
    let supervisor = Supervisor::new(Some(Duration::from_secs(3)));
    assert_eq!(supervisor.timeout(), Some(Duration::from_secs(3)));
}

#[test]
fn every_accepted_connection_is_served_and_counted() {
    let mut supervisor = Supervisor::new(None);
    assert_eq!(supervisor.step(Event::Accepted), Action::Serve { bounded: false });
    assert_eq!(supervisor.step(Event::Accepted), Action::Serve { bounded: false });
    assert_eq!(supervisor.alive(), 2);
    assert_eq!(supervisor.phase(), Phase::Running);
    assert_eq!(supervisor.step(Event::ConnectionClosed), Action::Wait);
    assert_eq!(supervisor.alive(), 1);
    assert_eq!(supervisor.step(Event::ConnectionClosed), Action::Wait);
    assert_eq!(supervisor.step(Event::ConnectionClosed), Action::Wait);
    assert_eq!(supervisor.alive(), 0);
    assert_eq!(supervisor.phase(), Phase::Running);
}

#[test]
fn a_failed_accept_is_passed_over() {
    let mut supervisor = running(1, None);
    assert_eq!(supervisor.step(Event::AcceptFailed), Action::Wait);
    assert_eq!(supervisor.phase(), Phase::Running);
    assert_eq!(supervisor.alive(), 1);
    assert_eq!(supervisor.step(Event::Accepted), Action::Serve { bounded: false });
    assert_eq!(supervisor.alive(), 2);
}

#[test]
fn shutdown_without_timeout_waits_for_every_connection() {
    let mut supervisor = running(3, None);
    assert_eq!(supervisor.step(Event::Shutdown), Action::StopAccepting { timer: None });
    assert_eq!(supervisor.phase(), Phase::ShuttingDown);
    assert_eq!(supervisor.step(Event::AcceptorClosed), Action::Wait);
    assert_eq!(supervisor.phase(), Phase::Draining);
    assert_eq!(supervisor.step(Event::ConnectionClosed), Action::Wait);
    assert_eq!(supervisor.step(Event::ConnectionClosed), Action::Wait);
    assert_eq!(supervisor.phase(), Phase::Draining);
    assert_eq!(supervisor.alive(), 1);
    assert_eq!(supervisor.step(Event::ConnectionClosed), Action::Return);
    assert_eq!(supervisor.phase(), Phase::Stopped);
    assert_eq!(supervisor.alive(), 0);
}

#[test]
fn no_connection_is_taken_after_the_signal() {
    let mut supervisor = running(2, None);
    supervisor.step(Event::Shutdown);
    assert_eq!(supervisor.step(Event::Accepted), Action::Refuse);
    assert_eq!(supervisor.alive(), 2);
    supervisor.step(Event::AcceptorClosed);
    assert_eq!(supervisor.step(Event::Accepted), Action::Refuse);
    assert_eq!(supervisor.alive(), 2);
    supervisor.step(Event::ConnectionClosed);
    supervisor.step(Event::ConnectionClosed);
    assert_eq!(supervisor.phase(), Phase::Stopped);
    assert_eq!(supervisor.step(Event::Accepted), Action::Refuse);
    assert_eq!(supervisor.alive(), 0);
}

#[test]
fn shutdown_with_no_connection_ends_at_once() {
    let mut supervisor = Supervisor::new(None);
    assert_eq!(supervisor.step(Event::Shutdown), Action::StopAccepting { timer: None });
    assert_eq!(supervisor.step(Event::AcceptorClosed), Action::Return);
    assert_eq!(supervisor.phase(), Phase::Stopped);
}

#[test]
fn connections_may_end_while_the_acceptor_is_being_closed() {
    let mut supervisor = running(1, None);
    supervisor.step(Event::Shutdown);
    assert_eq!(supervisor.step(Event::ConnectionClosed), Action::Wait);
    assert_eq!(supervisor.phase(), Phase::ShuttingDown);
    assert_eq!(supervisor.step(Event::AcceptorClosed), Action::Return);
    assert_eq!(supervisor.phase(), Phase::Stopped);
}

#[test]
fn shutdown_with_timeout_aborts_what_is_left_when_the_time_is_over() {
    let grace = Duration::from_millis(250);
    let mut supervisor = Supervisor::new(Some(grace));
    assert_eq!(supervisor.step(Event::Accepted), Action::Serve { bounded: true });
    assert_eq!(supervisor.step(Event::Accepted), Action::Serve { bounded: true });
    assert_eq!(supervisor.step(Event::Shutdown), Action::StopAccepting { timer: Some(grace) });
    assert_eq!(supervisor.step(Event::AcceptorClosed), Action::Wait);
    assert_eq!(supervisor.step(Event::ConnectionClosed), Action::Wait);
    assert_eq!(supervisor.step(Event::TimeoutElapsed), Action::Abort);
    assert_eq!(supervisor.phase(), Phase::Draining);
    assert_eq!(supervisor.step(Event::TimeoutElapsed), Action::Wait);
    assert_eq!(supervisor.step(Event::ConnectionClosed), Action::Return);
    assert_eq!(supervisor.phase(), Phase::Stopped);
}

#[test]
fn the_timer_may_fire_while_the_acceptor_is_being_closed() {
    let mut supervisor = running(1, Some(Duration::from_secs(0)));
    supervisor.step(Event::Shutdown);
    assert_eq!(supervisor.step(Event::TimeoutElapsed), Action::Abort);
    assert_eq!(supervisor.step(Event::AcceptorClosed), Action::Wait);
    assert_eq!(supervisor.step(Event::TimeoutElapsed), Action::Wait);
    assert_eq!(supervisor.step(Event::ConnectionClosed), Action::Return);
}

#[test]
fn without_a_timeout_nothing_is_aborted() {
    let mut supervisor = running(1, None);
    assert_eq!(supervisor.step(Event::TimeoutElapsed), Action::Wait);
    supervisor.step(Event::Shutdown);
    assert_eq!(supervisor.step(Event::TimeoutElapsed), Action::Wait);
    supervisor.step(Event::AcceptorClosed);
    assert_eq!(supervisor.step(Event::TimeoutElapsed), Action::Wait);
    assert_eq!(supervisor.phase(), Phase::Draining);
    assert_eq!(supervisor.alive(), 1);
}

#[test]
fn a_timer_does_not_fire_before_the_signal() {
    let mut supervisor = running(1, Some(Duration::from_secs(1)));
    assert_eq!(supervisor.step(Event::TimeoutElapsed), Action::Wait);
    supervisor.step(Event::Shutdown);
    supervisor.step(Event::AcceptorClosed);
    assert_eq!(supervisor.step(Event::TimeoutElapsed), Action::Abort);
}

#[test]
fn the_signal_counts_once() {
    let mut supervisor = running(1, None);
    supervisor.step(Event::Shutdown);
    assert_eq!(supervisor.step(Event::Shutdown), Action::Wait);
    assert_eq!(supervisor.phase(), Phase::ShuttingDown);
    supervisor.step(Event::AcceptorClosed);
    assert_eq!(supervisor.step(Event::Shutdown), Action::Wait);
    assert_eq!(supervisor.step(Event::AcceptorClosed), Action::Wait);
    assert_eq!(supervisor.phase(), Phase::Draining);
}

#[test]
fn a_stopped_supervisor_stays_stopped() {
    let mut supervisor = Supervisor::new(Some(Duration::from_secs(1)));
    supervisor.step(Event::Shutdown);
    assert_eq!(supervisor.step(Event::AcceptorClosed), Action::Return);
    for event in [
        Event::AcceptFailed,
        Event::Shutdown,
        Event::AcceptorClosed,
        Event::ConnectionClosed,
        Event::TimeoutElapsed,
    ] {
        assert_eq!(supervisor.step(event), Action::Wait);
        assert_eq!(supervisor.phase(), Phase::Stopped);
        assert_eq!(supervisor.alive(), 0);
    }
}

#[test]
fn a_server_is_made_of_an_acceptor() {
    let server = match Server::new(Ok(Ports(vec![3000, 3001]))) {
        Ok(server) => server,
        Err(_) => panic!("an acceptor makes a server"),
    };
    assert_eq!(server.local_addr().unwrap(), vec![3000, 3001]);
    let (acceptor, supervisor) = server.run();
    assert_eq!(acceptor.0, vec![3000, 3001]);
    assert_eq!(supervisor.phase(), Phase::Running);
    assert_eq!(supervisor.alive(), 0);
    assert_eq!(supervisor.timeout(), None);
}

#[test]
fn a_failed_setup_gives_no_server() {
    let failed: Result<Ports, IoError> = Err(IoError::new(ErrorKind::AddrInUse, "address in use"));
    match Server::new(failed) {
        Ok(_) => panic!("a failed setup makes no server"),
        Err(e) => {
            assert_eq!(e.kind(), ErrorKind::AddrInUse);
            assert_eq!(e.to_string(), "address in use");
        }
    }
}

#[test]
fn a_server_reports_what_its_acceptor_reports() {
    let server = match Server::new(Ok(Ports(vec![]))) {
        Ok(server) => server,
        Err(_) => panic!("an acceptor makes a server"),
    };
    assert_eq!(server.local_addr().unwrap_err().kind(), ErrorKind::NotConnected);
}

#[test]
fn a_graceful_run_keeps_the_timeout() {
    let server = match Server::new(Ok(Ports(vec![80]))) {
        Ok(server) => server,
        Err(_) => panic!("an acceptor makes a server"),
    };
    let (acceptor, mut supervisor) = server.run_with_graceful_shutdown(Some(Duration::from_secs(5)));
    assert_eq!(acceptor.0, vec![80]);
    assert_eq!(supervisor.phase(), Phase::Running);
    assert_eq!(supervisor.alive(), 0);
    assert_eq!(supervisor.timeout(), Some(Duration::from_secs(5)));
    assert_eq!(supervisor.step(Event::Accepted), Action::Serve { bounded: true });
    assert_eq!(
        supervisor.step(Event::Shutdown),
        Action::StopAccepting { timer: Some(Duration::from_secs(5)) }
    );
}
