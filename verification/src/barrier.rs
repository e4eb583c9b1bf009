//! Holding back the connection until the restored subscription has been published.

use vstd::prelude::*;

verus! {

/// How long to sleep between two looks at a barrier.
pub const GEYSER_CONNECT_BARRIER_POLL_MS: u64 = 5;

/// Where a barrier stands.
#[derive(Debug, Clone, Copy, PartialEq, Eq, Structural)]
pub enum BarrierState {
    Pending,
    Ready,
    Failed,
}

/// A barrier that opens once the admitted set has been published, or fails.
#[derive(Debug, Clone, Copy, PartialEq, Eq)]
pub struct GeyserConnectBarrier {
    state: BarrierState,
}

impl View for GeyserConnectBarrier {
    type V = BarrierState;

    closed spec fn view(&self) -> BarrierState {
        self.state
    }
}

impl Default for GeyserConnectBarrier {
    fn default() -> (r: Self)
        ensures
            r@ == BarrierState::Pending,
    {
        Self::new()
    }
}

impl GeyserConnectBarrier {
    pub fn new() -> (r: Self)
        ensures
            r@ == BarrierState::Pending,
    {
        GeyserConnectBarrier { state: BarrierState::Pending }
    }

    pub fn mark_ready(&mut self)
        ensures
            final(self)@ == BarrierState::Ready,
    {
        self.state = BarrierState::Ready;
    }

    pub fn mark_failed(&mut self)
        ensures
            final(self)@ == BarrierState::Failed,
    {
        self.state = BarrierState::Failed;
    }

    pub fn is_ready(&self) -> (r: bool)
        ensures
            r == (self@ == BarrierState::Ready),
    {
        self.state == BarrierState::Ready
    }

    /// One look at the barrier at time `now_ms` by a caller that waits until `deadline_ms`.
    /// None asks the caller to sleep and look again. At the deadline the wait has failed,
    /// whatever the state.
    pub fn wait_ready(&self, now_ms: u64, deadline_ms: u64) -> (r: Option<
        Result<(), &'static str>,
    >)
        ensures
            match r {
                None => now_ms < deadline_ms && self@ == BarrierState::Pending,
                Some(Ok(())) => now_ms < deadline_ms && self@ == BarrierState::Ready,
                Some(Err(e)) => if now_ms < deadline_ms {
                    self@ == BarrierState::Failed && e@ == "geyser_explicit_barrier_failed"@
                } else {
                    e@ == "geyser_explicit_barrier_timeout"@
                },
            },
    {
        if now_ms >= deadline_ms {
            return Some(Err("geyser_explicit_barrier_timeout"));
        }
        match self.state {
            BarrierState::Ready => Some(Ok(())),
            BarrierState::Failed => Some(Err("geyser_explicit_barrier_failed")),
            BarrierState::Pending => None,
        }
    }
}

} // verus!
