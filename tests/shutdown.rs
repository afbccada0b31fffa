use litebin::{Admission, Coordinator, Phase, ShutdownError};

#[test]
fn starts_accepting() {
    let c = Coordinator::new();
    assert_eq!(c.phase(), Phase::Accepting);
    assert_eq!(c.in_flight(), 0);
    assert!(!c.is_stopped());
}

#[test]
fn in_flight_request_finishes_after_trigger() {
    let mut c = Coordinator::new();
    assert_eq!(c.arrive(), Admission::Admitted);
    assert_eq!(c.fire(), Ok(()));
    assert_eq!(c.phase(), Phase::Draining);
    assert_eq!(c.arrive(), Admission::Refused);
    assert_eq!(c.in_flight(), 1);
    assert!(!c.is_stopped());
    c.finish();
    assert!(c.is_stopped());
    assert_eq!(c.in_flight(), 0);
    assert_eq!(c.arrive(), Admission::Refused);
}

#[test]
fn trigger_fired_twice_is_an_error() {
    let mut c = Coordinator::new();
    assert_eq!(c.arrive(), Admission::Admitted);
    assert_eq!(c.fire(), Ok(()));
    assert_eq!(c.fire(), Err(ShutdownError::AlreadyFired));
    c.finish();
    assert_eq!(c.fire(), Err(ShutdownError::AlreadyFired));
}

#[test]
fn trigger_after_stop_is_an_error() {
    let mut c = Coordinator::new();
    c.signal();
    assert!(c.is_stopped());
    assert_eq!(c.fire(), Err(ShutdownError::ServerStopped));
}

#[test]
fn idle_service_stops_at_once() {
    let mut c = Coordinator::new();
    assert_eq!(c.fire(), Ok(()));
    assert!(c.is_stopped());
}

#[test]
fn repeated_signals_are_harmless() {
    let mut c = Coordinator::new();
    assert_eq!(c.arrive(), Admission::Admitted);
    assert_eq!(c.arrive(), Admission::Admitted);
    c.signal();
    c.signal();
    assert_eq!(c.phase(), Phase::Draining);
    c.finish();
    assert_eq!(c.phase(), Phase::Draining);
    c.signal();
    c.finish();
    assert!(c.is_stopped());
    c.finish();
    assert!(c.is_stopped());
    assert_eq!(c.fire(), Err(ShutdownError::ServerStopped));
}

#[test]
fn trigger_after_service_is_gone_is_an_error() {
    let mut c = Coordinator::new();
    assert_eq!(c.arrive(), Admission::Admitted);
    c.stop();
    assert!(c.is_stopped());
    assert_eq!(c.in_flight(), 0);
    assert_eq!(c.arrive(), Admission::Refused);
    assert_eq!(c.fire(), Err(ShutdownError::ServerStopped));
}

#[test]
fn stop_keeps_the_trigger_fired() {
    let mut c = Coordinator::new();
    assert_eq!(c.fire(), Ok(()));
    c.stop();
    assert_eq!(c.fire(), Err(ShutdownError::AlreadyFired));
}

#[test]
fn requests_arriving_together_are_both_admitted() {
    let mut c = Coordinator::new();
    assert_eq!(c.arrive(), Admission::Admitted);
    assert_eq!(c.arrive(), Admission::Admitted);
    assert_eq!(c.in_flight(), 2);
    c.finish();
    assert_eq!(c.in_flight(), 1);
    assert_eq!(c.phase(), Phase::Accepting);
}
