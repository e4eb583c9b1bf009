//! Update messages of the momentum and arbitrage feeds.

use vstd::prelude::*;

verus! {

/// Why a momentum pool is active.
#[derive(Debug, Clone, Copy, PartialEq, Eq, Structural)]
pub enum MomentumActivePinReason {
    Tracker,
    Position,
}

/// A pool that the momentum feed wants tracked.
#[derive(Debug, Clone, PartialEq, Eq)]
pub struct MomentumActivePoolEntry {
    pub mint: String,
    pub pool: String,
    pub pin_reason: MomentumActivePinReason,
}

/// A pool that the momentum feed no longer wants tracked.
#[derive(Debug, Clone, PartialEq, Eq)]
pub struct MomentumRemovedPoolEntry {
    pub mint: String,
    pub pool: String,
}

/// One message of the momentum feed. With `full_active_snapshot` the active entries are all
/// there are; otherwise the message is a change to what came before.
#[derive(Debug, Clone, PartialEq, Eq)]
pub struct MomentumActivePoolsUpdate {
    pub version: u32,
    pub ts_unix_ms: u64,
    pub active: Vec<MomentumActivePoolEntry>,
    pub removed: Vec<MomentumRemovedPoolEntry>,
    pub full_active_snapshot: bool,
}

/// Why an arbitrage pool is active.
#[derive(Debug, Clone, Copy, PartialEq, Eq, Structural)]
pub enum ArbTrackActiveReason {
    Baseline,
}

/// A pool that the arbitrage feed wants tracked.
#[derive(Debug, Clone, PartialEq, Eq)]
pub struct ArbTrackActiveEntry {
    pub pool: String,
    pub reason: ArbTrackActiveReason,
}

/// A pool that the arbitrage feed no longer wants tracked.
#[derive(Debug, Clone, PartialEq, Eq)]
pub struct ArbTrackRemovedEntry {
    pub pool: String,
}

/// One message of the arbitrage feed. With `reconcile` the active entries are all there are;
/// otherwise the message is a change to what came before.
#[derive(Debug, Clone, PartialEq, Eq)]
pub struct ArbTrackRequestsUpdate {
    pub version: u32,
    pub ts_unix_ms: u64,
    pub active: Vec<ArbTrackActiveEntry>,
    pub removed: Vec<ArbTrackRemovedEntry>,
    pub reconcile: bool,
}

/// A copy with the same contents.
pub trait Duplicate: Sized {
    fn duplicate(&self) -> (copy: Self)
        ensures
            copy == *self,
    ;
}

impl Duplicate for MomentumActivePoolEntry {
    fn duplicate(&self) -> (copy: Self) {
        MomentumActivePoolEntry {
            mint: self.mint.clone(),
            pool: self.pool.clone(),
            pin_reason: self.pin_reason,
        }
    }
}

impl Duplicate for MomentumRemovedPoolEntry {
    fn duplicate(&self) -> (copy: Self) {
        MomentumRemovedPoolEntry { mint: self.mint.clone(), pool: self.pool.clone() }
    }
}

impl Duplicate for ArbTrackActiveEntry {
    fn duplicate(&self) -> (copy: Self) {
        ArbTrackActiveEntry { pool: self.pool.clone(), reason: self.reason }
    }
}

impl Duplicate for ArbTrackRemovedEntry {
    fn duplicate(&self) -> (copy: Self) {
        ArbTrackRemovedEntry { pool: self.pool.clone() }
    }
}

} // verus!
