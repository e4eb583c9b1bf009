//! Verified admission, eviction planning and replay bookkeeping for the set of
//! explicitly subscribed accounts.

pub mod ordered;
pub mod owner_index;
pub mod pubkey;
pub mod explicit_ownership;
pub mod eviction_model;
pub mod eviction_planner;
pub mod touch_stamps;
pub mod explicit_admission;
pub mod aged_key;
pub mod desired_admission;
pub mod row_order;
pub mod desired_set;
pub mod admission_wiring;
pub mod nats;
pub mod coalesce;
pub mod decimal;
pub mod snapshot;
pub mod worker_commands;
pub mod pending;
pub mod barrier;
pub mod enrichment;
pub mod geyser_sync;
pub mod worker;
pub mod worker_loop;
