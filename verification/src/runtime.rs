//! The node runtime's decisions: what a subscription worker and a timer do
//! next, and the transport's errors. The threads, channels and clocks that
//! carry these decisions out live with the caller.

use crate::text::{join2, join3};
use vstd::prelude::*;

verus! {

/// How often, in nanoseconds, worker loops wake up to check whether the node
/// is shutting down (50 ms).
pub const SHUTDOWN_POLL_INTERVAL_NANOS: u64 = 50_000_000;

/// What a subscription worker's wait on its channel came back with.
#[derive(Debug)]
pub enum ReceiveOutcome {
    Message(Vec<u8>),
    TimedOut,
    Disconnected,
}

/// What a subscription worker does next.
#[derive(Debug)]
pub enum WorkerAction {
    /// Hand these bytes to the callback, then decide again.
    Deliver(Vec<u8>),
    /// Wait on the channel (for at most the shutdown poll interval).
    Poll,
    /// Leave the loop.
    Stop,
}

/// A subscription worker's next step, given whether the node still runs and
/// what its last wait came back with (`None` before its first wait and after
/// each delivery): it hands every message to the callback, in the order the
/// channel gives them, whether or not the node still runs; stops once the
/// channel is gone; and otherwise waits again while the node runs and stops
/// once it does not.
pub fn subscription_step(running: bool, outcome: Option<ReceiveOutcome>) -> (r: WorkerAction)
    ensures
        match outcome {
            Some(ReceiveOutcome::Message(bytes)) => r matches WorkerAction::Deliver(b) && b@
                == bytes@,
            Some(ReceiveOutcome::Disconnected) => r is Stop,
            _ => if running {
                r is Poll
            } else {
                r is Stop
            },
        },
{
    match outcome {
        Some(ReceiveOutcome::Message(bytes)) => WorkerAction::Deliver(bytes),
        Some(ReceiveOutcome::Disconnected) => WorkerAction::Stop,
        _ => if running {
            WorkerAction::Poll
        } else {
            WorkerAction::Stop
        },
    }
}

/// What a timer does next.
#[derive(PartialEq, Eq, Structural, Clone, Copy, Debug)]
pub enum TimerAction {
    /// Leave the loop.
    Stop,
    /// Start a period that ends at this time.
    Begin(u128),
    /// Sleep this many nanoseconds, then look again.
    Sleep(u64),
    /// Call the callback; the period is over.
    Fire,
    /// The end of the next period cannot be represented.
    Overflow,
}

/// A timer's next step at time `now` (nanoseconds), with `deadline` the end
/// of the period under way, if one is, and `period` its length: it stops as
/// soon as the node stops; with no period under way it starts one that ends
/// `period` after `now`; before the deadline it sleeps until the deadline but
/// never longer than the shutdown poll interval; at or after the deadline it
/// fires.
pub fn timer_step(running: bool, now: u128, deadline: Option<u128>, period: u128) -> (r:
    TimerAction)
    ensures
        !running ==> r == TimerAction::Stop,
        running && deadline is None && now + period <= u128::MAX ==> r == TimerAction::Begin(
            (now + period) as u128,
        ),
        running && deadline is None && now + period > u128::MAX ==> r == TimerAction::Overflow,
        running ==> (deadline matches Some(d) ==> (now < d ==> r == TimerAction::Sleep(
            if d - now < SHUTDOWN_POLL_INTERVAL_NANOS {
                (d - now) as u64
            } else {
                SHUTDOWN_POLL_INTERVAL_NANOS
            },
        ))),
        running ==> (deadline matches Some(d) ==> (now >= d ==> r == TimerAction::Fire)),
{
    if !running {
        return TimerAction::Stop;
    }
    match deadline {
        None => match timer_deadline(now, period) {
            Some(d) => TimerAction::Begin(d),
            None => TimerAction::Overflow,
        },
        Some(d) => if now < d {
            let remaining = d - now;
            if remaining < SHUTDOWN_POLL_INTERVAL_NANOS as u128 {
                TimerAction::Sleep(remaining as u64)
            } else {
                TimerAction::Sleep(SHUTDOWN_POLL_INTERVAL_NANOS)
            }
        } else {
            TimerAction::Fire
        },
    }
}

/// The end of a timer period of `period` nanoseconds that starts at `now`,
/// where it can be represented.
pub fn timer_deadline(now: u128, period: u128) -> (r: Option<u128>)
    ensures
        now + period <= u128::MAX ==> r == Some((now + period) as u128),
        now + period > u128::MAX ==> r is None,
{
    now.checked_add(period)
}

/// The errors of the Zenoh transport.
#[derive(Debug)]
pub enum ZenohTransportError {
    SessionOpen(String),
    Publish { topic: String, reason: String },
    Subscribe { topic: String, reason: String },
}

/// The text that describes a transport error.
pub open spec fn transport_error_text(e: ZenohTransportError) -> Seq<char> {
    match e {
        ZenohTransportError::SessionOpen(reason) => "failed to open zenoh session: "@ + reason@,
        ZenohTransportError::Publish { topic, reason } => "failed to publish on '"@ + topic@
            + "': "@ + reason@,
        ZenohTransportError::Subscribe { topic, reason } => "failed to subscribe on '"@ + topic@
            + "': "@ + reason@,
    }
}

impl ZenohTransportError {
    /// The text that describes this error.
    pub fn message(&self) -> (r: String)
        ensures
            r@ == transport_error_text(*self),
    {
        match self {
            ZenohTransportError::SessionOpen(reason) => join2(
                "failed to open zenoh session: ",
                reason.as_str(),
            ),
            ZenohTransportError::Publish { topic, reason } => {
                let mut out = join3("failed to publish on '", topic.as_str(), "': ");
                out.append(reason.as_str());
                out
            },
            ZenohTransportError::Subscribe { topic, reason } => {
                let mut out = join3("failed to subscribe on '", topic.as_str(), "': ");
                out.append(reason.as_str());
                out
            },
        }
    }
}

} // verus!
