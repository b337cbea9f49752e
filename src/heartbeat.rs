//! Liveness probing of one active connection: on every period a `Ping` goes
//! out, until a send fails. A failed probe only stops the probing; noticing
//! that the link is gone is left to the connection's read loop.
use vstd::prelude::*;
use crate::message::{KindView, MessageType};

verus! {

/// The default time between two probes, in seconds.
pub const HEARTBEAT_PERIOD_SECS: u64 = 30;

/// The probing state of one connection.
#[derive(Clone, Copy, Debug, PartialEq, Eq, Structural)]
pub struct Heartbeat {
    /// Time between two probes, in seconds.
    pub period_secs: u64,
    /// Whether probes still go out.
    pub running: bool,
}

impl Heartbeat {
    /// Probing that starts now, with the given period.
    pub fn new(period_secs: u64) -> (r: Heartbeat)
        ensures
            r.period_secs == period_secs,
            r.running,
    {
        Heartbeat { period_secs, running: true }
    }

    /// What to send when the period has passed: a `Ping`, unless probing
    /// has stopped.
    pub fn on_tick(&self) -> (r: Option<MessageType>)
        ensures
            r is Some <==> self.running,
            r matches Some(k) ==> k@ == KindView::Ping,
    {
        if self.running {
            Some(MessageType::Ping)
        } else {
            None
        }
    }

    /// Takes the outcome of a probe; a failed send stops probing for good.
    pub fn on_send_result(&mut self, delivered: bool)
        ensures
            final(self).period_secs == old(self).period_secs,
            final(self).running == (old(self).running && delivered),
    {
        if !delivered {
            self.running = false;
        }
    }
}

} // verus!
