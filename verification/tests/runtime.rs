use reachpy::runtime::{subscription_step, timer_deadline, timer_step, ReceiveOutcome, TimerAction, WorkerAction, ZenohTransportError, SHUTDOWN_POLL_INTERVAL_NANOS};

#[test]
fn worker_delivers_polls_and_stops() {
    assert!(matches!(subscription_step(true, None), WorkerAction::Poll));
    assert!(matches!(subscription_step(false, None), WorkerAction::Stop));
    assert!(matches!(subscription_step(true, Some(ReceiveOutcome::Message(vec![7]))), WorkerAction::Deliver(b) if b == vec![7]));
    assert!(matches!(subscription_step(false, Some(ReceiveOutcome::Message(vec![8]))), WorkerAction::Deliver(b) if b == vec![8]));
    assert!(matches!(subscription_step(true, Some(ReceiveOutcome::TimedOut)), WorkerAction::Poll));
    assert!(matches!(subscription_step(false, Some(ReceiveOutcome::TimedOut)), WorkerAction::Stop));
    assert!(matches!(subscription_step(true, Some(ReceiveOutcome::Disconnected)), WorkerAction::Stop));
}

#[test]
fn timer_sleeps_in_quanta_and_fires_at_deadline() {
    assert_eq!(SHUTDOWN_POLL_INTERVAL_NANOS, 50_000_000);
    assert_eq!(timer_step(true, 7, None, 500_000_000), TimerAction::Begin(500_000_007));
    assert_eq!(timer_step(true, 7, None, u128::MAX), TimerAction::Overflow);
    assert_eq!(timer_step(false, 7, None, 500_000_000), TimerAction::Stop);
    assert_eq!(timer_step(true, 0, Some(500_000_000), 500_000_000), TimerAction::Sleep(50_000_000));
    assert_eq!(timer_step(true, 490_000_000, Some(500_000_000), 500_000_000), TimerAction::Sleep(10_000_000));
    assert_eq!(timer_step(true, 500_000_000, Some(500_000_000), 500_000_000), TimerAction::Fire);
    assert_eq!(timer_step(false, 600_000_000, Some(500_000_000), 500_000_000), TimerAction::Stop);
    assert_eq!(timer_deadline(10, 10_000_000), Some(10_000_010));
    assert_eq!(timer_deadline(u128::MAX, 1), None);
}

#[test]
fn transport_errors_describe_themselves() {
    let e = ZenohTransportError::Publish { topic: "/x".into(), reason: "down".into() };
    assert_eq!(e.message(), "failed to publish on '/x': down");
    assert_eq!(ZenohTransportError::SessionOpen("no".into()).message(), "failed to open zenoh session: no");
    let e = ZenohTransportError::Subscribe { topic: "/y".into(), reason: "bad".into() };
    assert_eq!(e.message(), "failed to subscribe on '/y': bad");
}
