//! What the track worker does with a command.
//!
//! A command is turned into the steps that the worker's surroundings carry out, and their
//! results into the outcome of the command; the outcome decides whether the command counts as
//! applied or is kept for replay.

use crate::explicit_admission;
use crate::explicit_admission::{FixedCapAdmission, ShedResult};
use crate::explicit_ownership::{ExplicitConsumer, ExplicitOwner, ExplicitOwnerKey};
use crate::nats::{ArbTrackRequestsUpdate, MomentumActivePoolsUpdate};
use crate::ordered;
use crate::ordered::Ranked;
use crate::pending;
use crate::pending::{BoundedProtocolStore, StageResult, StoreView};
use crate::pubkey::Pubkey;
use crate::worker_commands::{
    ImmutableTrackCommand, TrackCommandStream, TrackPinReason, TrackWorkerCommand,
};
use vstd::prelude::*;

verus! {

/// How many commands may be queued.
pub const MARKET_DATA_TRACK_WORKER_QUEUE_CAP: usize = 8192;

/// A momentum update with more entries than this is applied in chunks.
pub const MARKET_DATA_MOMENTUM_APPLY_CHUNK_THRESHOLD: usize = 32;

pub const MARKET_DATA_MOMENTUM_APPLY_CHUNK_SIZE: usize = 16;

/// An arbitrage update with more entries than this is applied in chunks.
pub const MARKET_DATA_ARB_APPLY_CHUNK_THRESHOLD: usize = 32;

pub const MARKET_DATA_ARB_APPLY_CHUNK_SIZE: usize = 16;

/// Which groups are let go of when execution is under pressure.
#[derive(Debug, Clone, Copy, PartialEq, Eq, Structural)]
pub enum ExecHotShedTier {
    Tracker,
    Momentum,
    Arb,
    /// None at all.
    Off,
}

/// One thing to do for a command. Ranges are of the entries of the update.
#[derive(Debug, Clone, Copy, PartialEq, Eq)]
pub enum CommandStep {
    /// Apply the update as a whole.
    ApplyWhole,
    /// Let go of all that is not among the active entries.
    ApplyReconcile,
    ApplyRemoved { from: usize, to: usize },
    ApplyActive { from: usize, to: usize },
    RetryDeferred,
    WalletPin { mint: Pubkey },
    WithdrawWalletPin { mint: Pubkey },
    TrackMint { mint: Pubkey, pin: Option<TrackPinReason> },
    /// Take over the configured cap.
    ShrinkCap,
    Restore,
    /// Ask whether the connection waits for the restored subscription.
    CheckBarrier,
    Shed { tier: ExecHotShedTier, max_groups: usize },
    WriteSnapshot { ticket: u64 },
}

/// Whether a step of a chunked range is of the removed entries or of the active ones.
#[derive(Debug, Clone, Copy, PartialEq, Eq, Structural)]
pub enum EntryList {
    Removed,
    Active,
}

/// The step for a range of entries.
pub open spec fn range_step(list: EntryList, from: usize, to: usize) -> CommandStep {
    match list {
        EntryList::Removed => CommandStep::ApplyRemoved { from, to },
        EntryList::Active => CommandStep::ApplyActive { from, to },
    }
}

/// The entries from `from` on, in chunks of `size`; the last may be shorter.
pub open spec fn chunks(list: EntryList, from: int, len: int, size: int) -> Seq<CommandStep>
    decreases len - from,
{
    if from >= len || size <= 0 {
        Seq::empty()
    } else {
        let to = if from + size < len {
            from + size
        } else {
            len
        };
        seq![range_step(list, from as usize, to as usize)] + chunks(list, to, len, size)
    }
}

/// How an update is applied: as a whole, or, with more entries than the threshold, in steps:
/// what a full update leaves out, the removed entries, the active ones, and at the end the
/// registrations that had been put off, where the feed has such.
pub open spec fn apply_plan(
    active: int,
    removed: int,
    full: bool,
    threshold: int,
    size: int,
    retries: bool,
) -> Seq<CommandStep> {
    if active + removed <= threshold {
        seq![CommandStep::ApplyWhole]
    } else {
        let head = if full {
            seq![CommandStep::ApplyReconcile]
        } else {
            Seq::empty()
        };
        let tail = if retries {
            seq![CommandStep::RetryDeferred]
        } else {
            Seq::empty()
        };
        head + chunks(EntryList::Removed, 0, removed, size) + chunks(
            EntryList::Active,
            0,
            active,
            size,
        ) + tail
    }
}

pub open spec fn momentum_plan(update: MomentumActivePoolsUpdate) -> Seq<CommandStep> {
    apply_plan(
        update.active@.len() as int,
        update.removed@.len() as int,
        update.full_active_snapshot,
        MARKET_DATA_MOMENTUM_APPLY_CHUNK_THRESHOLD as int,
        MARKET_DATA_MOMENTUM_APPLY_CHUNK_SIZE as int,
        true,
    )
}

pub open spec fn arb_plan(update: ArbTrackRequestsUpdate) -> Seq<CommandStep> {
    apply_plan(
        update.active@.len() as int,
        update.removed@.len() as int,
        update.reconcile,
        MARKET_DATA_ARB_APPLY_CHUNK_THRESHOLD as int,
        MARKET_DATA_ARB_APPLY_CHUNK_SIZE as int,
        false,
    )
}

fn push_chunks(steps: &mut Vec<CommandStep>, list: EntryList, len: usize, size: usize)
    requires
        size > 0,
    ensures
        final(steps)@ == old(steps)@ + chunks(list, 0, len as int, size as int),
{
    let ghost before = steps@;
    let mut from: usize = 0;
    assert(steps@ + chunks(list, 0, len as int, size as int) == before + chunks(
        list,
        0,
        len as int,
        size as int,
    ));
    while from < len
        invariant
            from <= len,
            size > 0,
            steps@ + chunks(list, from as int, len as int, size as int) == before + chunks(
                list,
                0,
                len as int,
                size as int,
            ),
        decreases len - from,
    {
        let to: usize = if len - from > size {
            from + size
        } else {
            len
        };
        let ghost done = steps@;
        let step = match list {
            EntryList::Removed => CommandStep::ApplyRemoved { from, to },
            EntryList::Active => CommandStep::ApplyActive { from, to },
        };
        steps.push(step);
        proof {
            let rest = chunks(list, to as int, len as int, size as int);
            assert(chunks(list, from as int, len as int, size as int) == seq![step] + rest);
            assert(done.push(step) + rest =~= done + (seq![step] + rest));
        }
        from = to;
    }
    assert(steps@ + chunks(list, from as int, len as int, size as int) =~= steps@);
}

fn plan_apply(
    active: usize,
    removed: usize,
    full: bool,
    threshold: usize,
    size: usize,
    retries: bool,
) -> (steps: Vec<CommandStep>)
    requires
        size > 0,
    ensures
        steps@ == apply_plan(
            active as int,
            removed as int,
            full,
            threshold as int,
            size as int,
            retries,
        ),
{
    let mut steps: Vec<CommandStep> = Vec::new();
    if active <= threshold && removed <= threshold - active {
        steps.push(CommandStep::ApplyWhole);
        assert(steps@ =~= seq![CommandStep::ApplyWhole]);
        return steps;
    }
    if full {
        steps.push(CommandStep::ApplyReconcile);
        assert(steps@ =~= seq![CommandStep::ApplyReconcile]);
    }
    push_chunks(&mut steps, EntryList::Removed, removed, size);
    push_chunks(&mut steps, EntryList::Active, active, size);
    let ghost done = steps@;
    if retries {
        steps.push(CommandStep::RetryDeferred);
        assert(steps@ =~= done + seq![CommandStep::RetryDeferred]);
    } else {
        assert(steps@ =~= done + Seq::empty());
    }
    steps
}

/// The steps in which a momentum update is applied.
pub fn apply_momentum_active_pools_on_track_worker(update: &MomentumActivePoolsUpdate) -> (steps:
    Vec<CommandStep>)
    ensures
        steps@ == momentum_plan(*update),
{
    plan_apply(
        update.active.len(),
        update.removed.len(),
        update.full_active_snapshot,
        MARKET_DATA_MOMENTUM_APPLY_CHUNK_THRESHOLD,
        MARKET_DATA_MOMENTUM_APPLY_CHUNK_SIZE,
        true,
    )
}

/// The steps in which an arbitrage update is applied.
pub fn apply_arb_track_requests_on_track_worker(update: &ArbTrackRequestsUpdate) -> (steps: Vec<
    CommandStep,
>)
    ensures
        steps@ == arb_plan(*update),
{
    plan_apply(
        update.active.len(),
        update.removed.len(),
        update.reconcile,
        MARKET_DATA_ARB_APPLY_CHUNK_THRESHOLD,
        MARKET_DATA_ARB_APPLY_CHUNK_SIZE,
        false,
    )
}

/// The step for one mint of a batch.
pub open spec fn mint_step(entry: (Pubkey, Option<TrackPinReason>)) -> CommandStep {
    CommandStep::TrackMint { mint: entry.0, pin: entry.1 }
}

/// The steps of a command.
pub open spec fn steps_of(job: TrackWorkerCommand) -> Seq<CommandStep> {
    match job {
        TrackWorkerCommand::ApplyMomentumActivePools(update) => momentum_plan(update),
        TrackWorkerCommand::ApplyArbTrackRequests(update) => arb_plan(update),
        TrackWorkerCommand::ApplyWalletPin { mint } => seq![CommandStep::WalletPin { mint }],
        TrackWorkerCommand::WithdrawWalletPin { mint } => seq![
            CommandStep::WithdrawWalletPin { mint },
        ],
        TrackWorkerCommand::TrackMint { mint, pin } => seq![CommandStep::TrackMint { mint, pin }],
        TrackWorkerCommand::TrackMints { entries } => entries@.map_values(
            |e: (Pubkey, Option<TrackPinReason>)| mint_step(e),
        ),
        TrackWorkerCommand::ScheduleGeyserSyncAfterConfigChange => seq![CommandStep::ShrinkCap],
        TrackWorkerCommand::RestoreExplicitSnapshot(_) => seq![CommandStep::Restore],
        TrackWorkerCommand::ScheduleGeyserPush => seq![CommandStep::CheckBarrier],
        TrackWorkerCommand::ScheduleGeyserPushDebounced => seq![CommandStep::CheckBarrier],
        TrackWorkerCommand::ContinueGeyserEvict => seq![CommandStep::CheckBarrier],
        TrackWorkerCommand::ShedTrackerUnderExecHotPressure { max_groups } => seq![
            CommandStep::Shed { tier: ExecHotShedTier::Tracker, max_groups },
        ],
        TrackWorkerCommand::ShedMomentumUnderExecHotPressure { max_groups } => seq![
            CommandStep::Shed { tier: ExecHotShedTier::Momentum, max_groups },
        ],
        TrackWorkerCommand::ShedArbUnderExecHotPressure { max_groups } => seq![
            CommandStep::Shed { tier: ExecHotShedTier::Arb, max_groups },
        ],
        TrackWorkerCommand::FlushExplicitSetSnapshot { ticket } => seq![
            CommandStep::WriteSnapshot { ticket },
        ],
        TrackWorkerCommand::RetryDeferredHotPoolReserves => seq![CommandStep::RetryDeferred],
    }
}

fn one_step(step: CommandStep) -> (steps: Vec<CommandStep>)
    ensures
        steps@ == seq![step],
{
    let mut steps: Vec<CommandStep> = Vec::new();
    steps.push(step);
    assert(steps@ =~= seq![step]);
    steps
}

/// The steps that a command takes, to be carried out in order.
pub fn track_worker_process_command(job: &TrackWorkerCommand) -> (steps: Vec<CommandStep>)
    ensures
        steps@ == steps_of(*job),
{
    match job {
        TrackWorkerCommand::ApplyMomentumActivePools(update) => {
            apply_momentum_active_pools_on_track_worker(update)
        },
        TrackWorkerCommand::ApplyArbTrackRequests(update) => {
            apply_arb_track_requests_on_track_worker(update)
        },
        TrackWorkerCommand::ApplyWalletPin { mint } => one_step(
            CommandStep::WalletPin { mint: *mint },
        ),
        TrackWorkerCommand::WithdrawWalletPin { mint } => one_step(
            CommandStep::WithdrawWalletPin { mint: *mint },
        ),
        TrackWorkerCommand::TrackMint { mint, pin } => one_step(
            CommandStep::TrackMint { mint: *mint, pin: *pin },
        ),
        TrackWorkerCommand::TrackMints { entries } => {
            let mut steps: Vec<CommandStep> = Vec::new();
            let mut i: usize = 0;
            while i < entries.len()
                invariant
                    i <= entries@.len(),
                    steps@ =~= entries@.take(i as int).map_values(
                        |e: (Pubkey, Option<TrackPinReason>)| mint_step(e),
                    ),
                decreases entries@.len() - i,
            {
                let (mint, pin) = entries[i];
                steps.push(CommandStep::TrackMint { mint, pin });
                i += 1;
            }
            assert(entries@.take(i as int) =~= entries@);
            steps
        },
        TrackWorkerCommand::ScheduleGeyserSyncAfterConfigChange => one_step(
            CommandStep::ShrinkCap,
        ),
        TrackWorkerCommand::RestoreExplicitSnapshot(_) => one_step(CommandStep::Restore),
        TrackWorkerCommand::ScheduleGeyserPush => one_step(CommandStep::CheckBarrier),
        TrackWorkerCommand::ScheduleGeyserPushDebounced => one_step(CommandStep::CheckBarrier),
        TrackWorkerCommand::ContinueGeyserEvict => one_step(CommandStep::CheckBarrier),
        TrackWorkerCommand::ShedTrackerUnderExecHotPressure { max_groups } => one_step(
            CommandStep::Shed { tier: ExecHotShedTier::Tracker, max_groups: *max_groups },
        ),
        TrackWorkerCommand::ShedMomentumUnderExecHotPressure { max_groups } => one_step(
            CommandStep::Shed { tier: ExecHotShedTier::Momentum, max_groups: *max_groups },
        ),
        TrackWorkerCommand::ShedArbUnderExecHotPressure { max_groups } => one_step(
            CommandStep::Shed { tier: ExecHotShedTier::Arb, max_groups: *max_groups },
        ),
        TrackWorkerCommand::FlushExplicitSetSnapshot { ticket } => one_step(
            CommandStep::WriteSnapshot { ticket: *ticket },
        ),
        TrackWorkerCommand::RetryDeferredHotPoolReserves => one_step(CommandStep::RetryDeferred),
    }
}

/// What the steps of a command came to.
#[derive(Debug, Clone, Copy, PartialEq, Eq)]
pub struct CommandOutcome {
    /// The command did what it was for.
    pub succeeded: bool,
    /// The next push is to open or fail the barrier.
    pub restore_barrier_pending: bool,
    /// Nothing changed, so the number of pins is to be reported anew.
    pub refresh_pins_gauge: bool,
}

pub open spec fn any_true(results: Seq<bool>) -> bool {
    exists|i: int| 0 <= i < results.len() && #[trigger] results[i]
}

pub open spec fn all_true(results: Seq<bool>) -> bool {
    forall|i: int| 0 <= i < results.len() ==> #[trigger] results[i]
}

/// The outcome of a command, from the results of its steps: an update changed something if
/// one of its steps did; a batch of mints succeeded if each did; a configuration change
/// always does; a push or an eviction only passes on whether the barrier waits.
pub open spec fn outcome_of(job: TrackWorkerCommand, results: Seq<bool>) -> CommandOutcome {
    let plain = |succeeded: bool|
        CommandOutcome { succeeded, restore_barrier_pending: false, refresh_pins_gauge: false };
    match job {
        TrackWorkerCommand::ApplyMomentumActivePools(update) => CommandOutcome {
            succeeded: any_true(results),
            restore_barrier_pending: false,
            refresh_pins_gauge: momentum_plan(update)[0] !is ApplyWhole && !any_true(results),
        },
        TrackWorkerCommand::ApplyArbTrackRequests(update) => CommandOutcome {
            succeeded: any_true(results),
            restore_barrier_pending: false,
            refresh_pins_gauge: arb_plan(update)[0] !is ApplyWhole && !any_true(results),
        },
        TrackWorkerCommand::TrackMints { .. } => plain(all_true(results)),
        TrackWorkerCommand::ScheduleGeyserSyncAfterConfigChange => plain(true),
        TrackWorkerCommand::RestoreExplicitSnapshot(_) => CommandOutcome {
            succeeded: results[0],
            restore_barrier_pending: true,
            refresh_pins_gauge: false,
        },
        TrackWorkerCommand::ScheduleGeyserPush
        | TrackWorkerCommand::ScheduleGeyserPushDebounced
        | TrackWorkerCommand::ContinueGeyserEvict => CommandOutcome {
            succeeded: false,
            restore_barrier_pending: results[0],
            refresh_pins_gauge: false,
        },
        TrackWorkerCommand::FlushExplicitSetSnapshot { .. } => plain(false),
        _ => plain(results[0]),
    }
}

fn has_true(results: &[bool]) -> (r: bool)
    ensures
        r == any_true(results@),
{
    let mut i: usize = 0;
    while i < results.len()
        invariant
            i <= results@.len(),
            forall|j: int| 0 <= j < i ==> !#[trigger] results@[j],
        decreases results@.len() - i,
    {
        if results[i] {
            assert(results@[i as int]);
            return true;
        }
        i += 1;
    }
    false
}

fn has_all_true(results: &[bool]) -> (r: bool)
    ensures
        r == all_true(results@),
{
    let mut i: usize = 0;
    while i < results.len()
        invariant
            i <= results@.len(),
            forall|j: int| 0 <= j < i ==> #[trigger] results@[j],
        decreases results@.len() - i,
    {
        if !results[i] {
            assert(!results@[i as int]);
            return false;
        }
        i += 1;
    }
    true
}

fn is_whole(steps: &Vec<CommandStep>) -> (r: bool)
    requires
        steps@.len() > 0,
    ensures
        r == (steps@[0] is ApplyWhole),
{
    match steps[0] {
        CommandStep::ApplyWhole => true,
        _ => false,
    }
}

proof fn lemma_chunks_nonempty(list: EntryList, from: int, len: int, size: int)
    requires
        from < len,
        size > 0,
    ensures
        chunks(list, from, len, size).len() > 0,
{
}

proof fn lemma_plan_nonempty(
    active: int,
    removed: int,
    full: bool,
    threshold: int,
    size: int,
    retries: bool,
)
    requires
        active >= 0,
        removed >= 0,
        threshold >= 0,
        size > 0,
    ensures
        apply_plan(active, removed, full, threshold, size, retries).len() > 0,
{
    if active + removed > threshold {
        if removed > 0 {
            lemma_chunks_nonempty(EntryList::Removed, 0, removed, size);
        } else {
            lemma_chunks_nonempty(EntryList::Active, 0, active, size);
        }
    }
}

/// The outcome of a command whose steps gave these results, one for each.
pub fn command_outcome(job: &TrackWorkerCommand, results: &[bool]) -> (r: CommandOutcome)
    requires
        results@.len() == steps_of(*job).len(),
    ensures
        r == outcome_of(*job, results@),
{
    match job {
        TrackWorkerCommand::ApplyMomentumActivePools(update) => {
            proof {
                lemma_plan_nonempty(
                    update.active@.len() as int,
                    update.removed@.len() as int,
                    update.full_active_snapshot,
                    32,
                    16,
                    true,
                );
            }
            let dirty = has_true(results);
            let whole = is_whole(&apply_momentum_active_pools_on_track_worker(update));
            CommandOutcome {
                succeeded: dirty,
                restore_barrier_pending: false,
                refresh_pins_gauge: !whole && !dirty,
            }
        },
        TrackWorkerCommand::ApplyArbTrackRequests(update) => {
            proof {
                lemma_plan_nonempty(
                    update.active@.len() as int,
                    update.removed@.len() as int,
                    update.reconcile,
                    32,
                    16,
                    false,
                );
            }
            let dirty = has_true(results);
            let whole = is_whole(&apply_arb_track_requests_on_track_worker(update));
            CommandOutcome {
                succeeded: dirty,
                restore_barrier_pending: false,
                refresh_pins_gauge: !whole && !dirty,
            }
        },
        TrackWorkerCommand::TrackMints { .. } => CommandOutcome {
            succeeded: has_all_true(results),
            restore_barrier_pending: false,
            refresh_pins_gauge: false,
        },
        TrackWorkerCommand::ScheduleGeyserSyncAfterConfigChange => CommandOutcome {
            succeeded: true,
            restore_barrier_pending: false,
            refresh_pins_gauge: false,
        },
        TrackWorkerCommand::RestoreExplicitSnapshot(_) => CommandOutcome {
            succeeded: results[0],
            restore_barrier_pending: true,
            refresh_pins_gauge: false,
        },
        TrackWorkerCommand::ScheduleGeyserPush
        | TrackWorkerCommand::ScheduleGeyserPushDebounced
        | TrackWorkerCommand::ContinueGeyserEvict => CommandOutcome {
            succeeded: false,
            restore_barrier_pending: results[0],
            refresh_pins_gauge: false,
        },
        TrackWorkerCommand::FlushExplicitSetSnapshot { .. } => CommandOutcome {
            succeeded: false,
            restore_barrier_pending: false,
            refresh_pins_gauge: false,
        },
        _ => CommandOutcome {
            succeeded: results[0],
            restore_barrier_pending: false,
            refresh_pins_gauge: false,
        },
    }
}

/// Where the range of a step starts.
pub open spec fn step_from(step: CommandStep) -> int {
    match step {
        CommandStep::ApplyRemoved { from, .. } => from as int,
        CommandStep::ApplyActive { from, .. } => from as int,
        _ => 0,
    }
}

/// Where the range of a step ends.
pub open spec fn step_to(step: CommandStep) -> int {
    match step {
        CommandStep::ApplyRemoved { to, .. } => to as int,
        CommandStep::ApplyActive { to, .. } => to as int,
        _ => 0,
    }
}

/// The chunks of a list of entries cover it without gap or overlap, in order, each of at
/// least one entry and at most `size`.
pub proof fn chunks_cover_the_entries(list: EntryList, from: int, len: int, size: int)
    requires
        0 <= from < len <= usize::MAX,
        size > 0,
    ensures
        ({
            let steps = chunks(list, from, len, size);
            &&& steps.len() > 0
            &&& step_from(steps[0]) == from
            &&& step_to(steps.last()) == len
            &&& forall|i: int|
                0 <= i < steps.len() ==> step_from(#[trigger] steps[i]) < step_to(steps[i])
                    <= step_from(steps[i]) + size
            &&& forall|i: int, j: int|
                0 <= i && j == i + 1 && j < steps.len() ==> step_to(#[trigger] steps[i])
                    == step_from(#[trigger] steps[j])
        }),
    decreases len - from,
{
    let to = if from + size < len {
        from + size
    } else {
        len
    };
    let steps = chunks(list, from, len, size);
    let rest = chunks(list, to, len, size);
    assert(steps == seq![range_step(list, from as usize, to as usize)] + rest);
    if to < len {
        chunks_cover_the_entries(list, to, len, size);
        assert forall|i: int| 0 <= i < steps.len() implies step_from(#[trigger] steps[i])
            < step_to(steps[i]) <= step_from(steps[i]) + size by {
            if i > 0 {
                assert(steps[i] == rest[i - 1]);
            }
        }
        assert forall|i: int, j: int| 0 <= i && j == i + 1 && j < steps.len() implies step_to(
            #[trigger] steps[i],
        ) == step_from(#[trigger] steps[j]) by {
            assert(steps[j] == rest[j - 1]);
            if i > 0 {
                assert(steps[i] == rest[i - 1]);
            }
        }
        assert(steps.last() == rest.last());
    }
}

/// The ranges of chunks: of the list, ascending, and apart.
proof fn lemma_chunk_ranges(list: EntryList, from: int, len: int, size: int)
    requires
        0 <= from,
        len <= usize::MAX,
        size > 0,
    ensures
        ({
            let steps = chunks(list, from, len, size);
            &&& forall|i: int|
                0 <= i < steps.len() ==> {
                    &&& match list {
                        EntryList::Removed => #[trigger] steps[i] is ApplyRemoved,
                        EntryList::Active => steps[i] is ApplyActive,
                    }
                    &&& from <= step_from(steps[i]) < step_to(steps[i]) <= len
                    &&& step_to(steps[i]) <= step_from(steps[i]) + size
                }
            &&& forall|i: int, j: int|
                0 <= i < j < steps.len() ==> step_to(#[trigger] steps[i]) <= step_from(
                    #[trigger] steps[j],
                )
        }),
    decreases len - from,
{
    if from < len {
        let to = if from + size < len {
            from + size
        } else {
            len
        };
        lemma_chunk_ranges(list, to, len, size);
        let steps = chunks(list, from, len, size);
        let rest = chunks(list, to, len, size);
        assert(steps == seq![range_step(list, from as usize, to as usize)] + rest);
        assert forall|i: int| 0 < i < steps.len() implies #[trigger] steps[i] == rest[i - 1] by {}
    }
}

/// Some chunk holds the entry `k`.
proof fn lemma_chunk_of(list: EntryList, from: int, len: int, size: int, k: int) -> (i: int)
    requires
        0 <= from <= k < len <= usize::MAX,
        size > 0,
    ensures
        0 <= i < chunks(list, from, len, size).len(),
        step_from(chunks(list, from, len, size)[i]) <= k < step_to(
            chunks(list, from, len, size)[i],
        ),
    decreases len - from,
{
    let to = if from + size < len {
        from + size
    } else {
        len
    };
    let rest = chunks(list, to, len, size);
    assert(chunks(list, from, len, size) == seq![range_step(list, from as usize, to as usize)]
        + rest);
    if k < to {
        0
    } else {
        let i = lemma_chunk_of(list, to, len, size, k);
        assert(chunks(list, from, len, size)[i + 1] == rest[i]);
        i + 1
    }
}

/// The number of active and of removed entries of an update, whether it is full, and the number
/// of entries up to which it is applied as a whole.
pub open spec fn update_shape(
    job: TrackWorkerCommand,
    active: int,
    removed: int,
    full: bool,
    whole_up_to: int,
) -> bool {
    match job {
        TrackWorkerCommand::ApplyMomentumActivePools(update) => {
            &&& active == update.active@.len()
            &&& removed == update.removed@.len()
            &&& full == update.full_active_snapshot
            &&& whole_up_to == MARKET_DATA_MOMENTUM_APPLY_CHUNK_THRESHOLD
        },
        TrackWorkerCommand::ApplyArbTrackRequests(update) => {
            &&& active == update.active@.len()
            &&& removed == update.removed@.len()
            &&& full == update.reconcile
            &&& whole_up_to == MARKET_DATA_ARB_APPLY_CHUNK_THRESHOLD
        },
        _ => false,
    }
}

proof fn lemma_lengths_fit(
    job: TrackWorkerCommand,
    active: int,
    removed: int,
    full: bool,
    whole_up_to: int,
)
    requires
        update_shape(job, active, removed, full, whole_up_to),
    ensures
        0 <= active <= usize::MAX,
        0 <= removed <= usize::MAX,
{
    match job {
        TrackWorkerCommand::ApplyMomentumActivePools(update) => {
            assert(update.active.len() == update.active@.len());
            assert(update.removed.len() == update.removed@.len());
        },
        TrackWorkerCommand::ApplyArbTrackRequests(update) => {
            assert(update.active.len() == update.active@.len());
            assert(update.removed.len() == update.removed@.len());
        },
        _ => {},
    }
}

/// A small update is applied as a whole, by one step.
pub proof fn small_update_is_applied_as_a_whole(
    job: TrackWorkerCommand,
    active: int,
    removed: int,
    full: bool,
    whole_up_to: int,
)
    requires
        update_shape(job, active, removed, full, whole_up_to),
    ensures
        active + removed <= whole_up_to <==> steps_of(job).contains(CommandStep::ApplyWhole),
        active + removed <= whole_up_to ==> steps_of(job).len() == 1,
{
    let steps = steps_of(job);
    if active + removed <= whole_up_to {
        assert(steps[0] is ApplyWhole);
    } else {
        large_update_takes_its_steps_in_order(job, active, removed, full, whole_up_to);
    }
}

/// In a large update every removed entry is applied by just one step, and so is every active one.
pub proof fn large_update_applies_each_entry_once(
    job: TrackWorkerCommand,
    active: int,
    removed: int,
    full: bool,
    whole_up_to: int,
    k: int,
)
    requires
        update_shape(job, active, removed, full, whole_up_to),
        active + removed > whole_up_to,
    ensures
        0 <= k < removed ==> exists|i: int|
            0 <= i < steps_of(job).len() && (#[trigger] steps_of(job)[i] matches
                CommandStep::ApplyRemoved { from, to } && from <= k < to),
        0 <= k < active ==> exists|i: int|
            0 <= i < steps_of(job).len() && (#[trigger] steps_of(job)[i] matches
                CommandStep::ApplyActive { from, to } && from <= k < to),
        forall|i: int, j: int|
            0 <= i < steps_of(job).len() && 0 <= j < steps_of(job).len() && (
            #[trigger] steps_of(job)[i] matches CommandStep::ApplyRemoved { from, to } && from <= k
                < to) && (#[trigger] steps_of(job)[j] matches CommandStep::ApplyRemoved {
                from,
                to,
            } && from <= k < to) ==> i == j,
        forall|i: int, j: int|
            0 <= i < steps_of(job).len() && 0 <= j < steps_of(job).len() && (
            #[trigger] steps_of(job)[i] matches CommandStep::ApplyActive { from, to } && from <= k
                < to) && (#[trigger] steps_of(job)[j] matches CommandStep::ApplyActive {
                from,
                to,
            } && from <= k < to) ==> i == j,
{
    let steps = steps_of(job);
    let size: int = 16;
    let r = chunks(EntryList::Removed, 0, removed, size);
    let a = chunks(EntryList::Active, 0, active, size);
    let n: int = if full {
        1
    } else {
        0
    };
    lemma_lengths_fit(job, active, removed, full, whole_up_to);
    lemma_chunk_ranges(EntryList::Removed, 0, removed, size);
    lemma_chunk_ranges(EntryList::Active, 0, active, size);
    lemma_plan_parts(job, active, removed, full, whole_up_to);
    if 0 <= k < removed {
        let i = lemma_chunk_of(EntryList::Removed, 0, removed, size, k);
        assert(steps[n + i] == r[i]);
    }
    if 0 <= k < active {
        let i = lemma_chunk_of(EntryList::Active, 0, active, size, k);
        assert(steps[n + r.len() + i] == a[i]);
    }
}

/// Where the parts of a large update stand among its steps.
proof fn lemma_plan_parts(
    job: TrackWorkerCommand,
    active: int,
    removed: int,
    full: bool,
    whole_up_to: int,
)
    requires
        update_shape(job, active, removed, full, whole_up_to),
        active + removed > whole_up_to,
    ensures
        ({
            let steps = steps_of(job);
            let r = chunks(EntryList::Removed, 0, removed, 16);
            let a = chunks(EntryList::Active, 0, active, 16);
            let n: int = if full {
                1
            } else {
                0
            };
            let t: int = if job is ApplyMomentumActivePools {
                1
            } else {
                0
            };
            &&& steps.len() == n + r.len() + a.len() + t
            &&& full ==> steps[0] is ApplyReconcile
            &&& t == 1 ==> steps[steps.len() - 1] is RetryDeferred
            &&& forall|i: int|
                #![trigger steps[i]]
                n <= i < n + r.len() ==> steps[i] == r[i - n]
            &&& forall|i: int|
                #![trigger steps[i]]
                n + r.len() <= i < n + r.len() + a.len() ==> steps[i] == a[i - n - r.len()]
        }),
{
}

/// The steps of a large update: first, of a full one alone, what it leaves out; then the removed
/// entries from first to last, in chunks; then the active ones likewise; and last, for the
/// momentum feed, the registrations that had been put off.
pub proof fn large_update_takes_its_steps_in_order(
    job: TrackWorkerCommand,
    active: int,
    removed: int,
    full: bool,
    whole_up_to: int,
)
    requires
        update_shape(job, active, removed, full, whole_up_to),
        active + removed > whole_up_to,
    ensures
        forall|i: int|
            0 <= i < steps_of(job).len() ==> match #[trigger] steps_of(job)[i] {
                CommandStep::ApplyReconcile => full && i == 0,
                CommandStep::ApplyRemoved { from, to } => {
                    &&& from < to <= removed
                    &&& job is ApplyMomentumActivePools ==> to - from
                        <= MARKET_DATA_MOMENTUM_APPLY_CHUNK_SIZE
                    &&& job is ApplyArbTrackRequests ==> to - from
                        <= MARKET_DATA_ARB_APPLY_CHUNK_SIZE
                },
                CommandStep::ApplyActive { from, to } => {
                    &&& from < to <= active
                    &&& job is ApplyMomentumActivePools ==> to - from
                        <= MARKET_DATA_MOMENTUM_APPLY_CHUNK_SIZE
                    &&& job is ApplyArbTrackRequests ==> to - from
                        <= MARKET_DATA_ARB_APPLY_CHUNK_SIZE
                },
                CommandStep::RetryDeferred => job is ApplyMomentumActivePools && i
                    == steps_of(job).len() - 1,
                _ => false,
            },
        full ==> steps_of(job)[0] is ApplyReconcile,
        job is ApplyMomentumActivePools ==> steps_of(job).last() is RetryDeferred,
        forall|i: int, j: int|
            0 <= i < steps_of(job).len() && 0 <= j < steps_of(job).len()
                && #[trigger] steps_of(job)[i] is ApplyRemoved
                && #[trigger] steps_of(job)[j] is ApplyActive ==> i < j,
        forall|i: int, j: int|
            0 <= i < j < steps_of(job).len() ==> match (
                #[trigger] steps_of(job)[i],
                #[trigger] steps_of(job)[j],
            ) {
                (
                    CommandStep::ApplyRemoved { to, .. },
                    CommandStep::ApplyRemoved { from, .. },
                ) => to <= from,
                (
                    CommandStep::ApplyActive { to, .. },
                    CommandStep::ApplyActive { from, .. },
                ) => to <= from,
                _ => true,
            },
{
    lemma_lengths_fit(job, active, removed, full, whole_up_to);
    lemma_chunk_ranges(EntryList::Removed, 0, removed, 16);
    lemma_chunk_ranges(EntryList::Active, 0, active, 16);
    lemma_plan_parts(job, active, removed, full, whole_up_to);
}

/// A batch of mints takes one step for each entry, the one that the entry takes by itself, with
/// its own mint and its own reason.
pub proof fn batch_tracks_each_mint_with_its_own_reason(
    entries: Vec<(Pubkey, Option<TrackPinReason>)>,
    i: int,
)
    requires
        0 <= i < entries@.len(),
    ensures
        ({
            let (mint, pin) = entries@[i];
            let batch = steps_of(TrackWorkerCommand::TrackMints { entries });
            let single = steps_of(TrackWorkerCommand::TrackMint { mint, pin });
            &&& batch.len() == entries@.len()
            &&& single.len() == 1
            &&& batch[i] == single[0]
            &&& batch[i] == CommandStep::TrackMint { mint, pin }
        }),
{
}

/// A step is taken only for a command that asks for it, and carries what the command carries.
pub proof fn steps_are_asked_for(job: TrackWorkerCommand, i: int)
    requires
        0 <= i < steps_of(job).len(),
    ensures
        match steps_of(job)[i] {
            CommandStep::WalletPin { mint } => job == (TrackWorkerCommand::ApplyWalletPin {
                mint,
            }),
            CommandStep::WithdrawWalletPin { mint } => job
                == (TrackWorkerCommand::WithdrawWalletPin { mint }),
            CommandStep::TrackMint { mint, pin } => job == (TrackWorkerCommand::TrackMint {
                mint,
                pin,
            }) || (job matches TrackWorkerCommand::TrackMints { entries } && entries@[i] == (
                mint,
                pin,
            )),
            CommandStep::ShrinkCap => job is ScheduleGeyserSyncAfterConfigChange,
            CommandStep::Restore => job is RestoreExplicitSnapshot,
            CommandStep::CheckBarrier => job is ScheduleGeyserPush
                || job is ScheduleGeyserPushDebounced || job is ContinueGeyserEvict,
            CommandStep::Shed { tier: ExecHotShedTier::Tracker, max_groups } => job
                == (TrackWorkerCommand::ShedTrackerUnderExecHotPressure { max_groups }),
            CommandStep::Shed { tier: ExecHotShedTier::Momentum, max_groups } => job
                == (TrackWorkerCommand::ShedMomentumUnderExecHotPressure { max_groups }),
            CommandStep::Shed { tier: ExecHotShedTier::Arb, max_groups } => job
                == (TrackWorkerCommand::ShedArbUnderExecHotPressure { max_groups }),
            CommandStep::Shed { tier: ExecHotShedTier::Off, .. } => false,
            CommandStep::WriteSnapshot { ticket } => job
                == (TrackWorkerCommand::FlushExplicitSetSnapshot { ticket }),
            CommandStep::RetryDeferred => job is RetryDeferredHotPoolReserves
                || job is ApplyMomentumActivePools,
            CommandStep::ApplyWhole | CommandStep::ApplyReconcile | CommandStep::ApplyRemoved {
                ..
            } | CommandStep::ApplyActive { .. } => job is ApplyMomentumActivePools
                || job is ApplyArbTrackRequests,
        },
{
    if job is ApplyMomentumActivePools || job is ApplyArbTrackRequests {
        let (active, removed, full, whole_up_to): (int, int, bool, int) = match job {
            TrackWorkerCommand::ApplyMomentumActivePools(u) => (
                u.active@.len() as int,
                u.removed@.len() as int,
                u.full_active_snapshot,
                MARKET_DATA_MOMENTUM_APPLY_CHUNK_THRESHOLD as int,
            ),
            TrackWorkerCommand::ApplyArbTrackRequests(u) => (
                u.active@.len() as int,
                u.removed@.len() as int,
                u.reconcile,
                MARKET_DATA_ARB_APPLY_CHUNK_THRESHOLD as int,
            ),
            _ => (0, 0, false, 0),
        };
        if active + removed > whole_up_to {
            large_update_takes_its_steps_in_order(job, active, removed, full, whole_up_to);
        }
    }
}

/// Every command but an update and a batch takes just one step.
pub proof fn plain_command_takes_one_step(job: TrackWorkerCommand)
    requires
        !(job is ApplyMomentumActivePools),
        !(job is ApplyArbTrackRequests),
        !(job is TrackMints),
    ensures
        steps_of(job).len() == 1,
{
}

/// A batch of mints succeeds if and only if each of its mints would by itself.
pub proof fn batch_succeeds_when_each_mint_does(
    entries: Vec<(Pubkey, Option<TrackPinReason>)>,
    results: Seq<bool>,
)
    requires
        results.len() == entries@.len(),
    ensures
        outcome_of(TrackWorkerCommand::TrackMints { entries }, results).succeeded <==> (forall|
            i: int,
        |
            #![trigger results[i]]
            0 <= i < results.len() ==> outcome_of(
                TrackWorkerCommand::TrackMint { mint: entries@[i].0, pin: entries@[i].1 },
                seq![results[i]],
            ).succeeded),
        forall|mint: Pubkey, pin: Option<TrackPinReason>, ok: bool|
            (#[trigger] outcome_of(
                TrackWorkerCommand::TrackMint { mint, pin },
                seq![ok],
            )).succeeded == ok,
{
    assert forall|i: int| #![trigger results[i]] 0 <= i < results.len() implies outcome_of(
        TrackWorkerCommand::TrackMint { mint: entries@[i].0, pin: entries@[i].1 },
        seq![results[i]],
    ).succeeded == results[i] by {}
    if outcome_of(TrackWorkerCommand::TrackMints { entries }, results).succeeded {
        assert(forall|i: int| 0 <= i < results.len() ==> #[trigger] results[i]);
    }
}

/// What a command comes to: an update succeeds if a step changed something, and one in chunks
/// that changed nothing has its pins reported anew; a push, an eviction or a flush of the
/// snapshot never counts as a success and a change of configuration always does; any other
/// command with one step succeeds if the step does. The barrier waits on a restore, and on a push
/// or an eviction that found it waiting.
pub proof fn outcome_follows_from_the_results(job: TrackWorkerCommand, results: Seq<bool>)
    requires
        results.len() == steps_of(job).len(),
        !(job is TrackMints),
    ensures
        ({
            let update = job is ApplyMomentumActivePools || job is ApplyArbTrackRequests;
            let push = job is ScheduleGeyserPush || job is ScheduleGeyserPushDebounced
                || job is ContinueGeyserEvict;
            let r = outcome_of(job, results);
            &&& update ==> (r.succeeded <==> results.contains(true))
            &&& r.refresh_pins_gauge <==> update && !r.succeeded && !steps_of(job).contains(
                CommandStep::ApplyWhole,
            )
            &&& push || job is FlushExplicitSetSnapshot ==> !r.succeeded
            &&& job is ScheduleGeyserSyncAfterConfigChange ==> r.succeeded
            &&& !update && !push && !(job is FlushExplicitSetSnapshot)
                && !(job is ScheduleGeyserSyncAfterConfigChange) ==> r.succeeded == results[0]
            &&& r.restore_barrier_pending <==> job is RestoreExplicitSnapshot || (push
                && results[0])
        }),
{
    let update = job is ApplyMomentumActivePools || job is ApplyArbTrackRequests;
    if update {
        assert(any_true(results) <==> results.contains(true)) by {
            if results.contains(true) {
                let i = choose|i: int| 0 <= i < results.len() && results[i] == true;
                assert(results[i]);
            }
            if any_true(results) {
                let i = choose|i: int| 0 <= i < results.len() && #[trigger] results[i];
                assert(results[i] == true);
            }
        }
        let (active, removed, full, whole_up_to): (int, int, bool, int) = match job {
            TrackWorkerCommand::ApplyMomentumActivePools(u) => (
                u.active@.len() as int,
                u.removed@.len() as int,
                u.full_active_snapshot,
                MARKET_DATA_MOMENTUM_APPLY_CHUNK_THRESHOLD as int,
            ),
            TrackWorkerCommand::ApplyArbTrackRequests(u) => (
                u.active@.len() as int,
                u.removed@.len() as int,
                u.reconcile,
                MARKET_DATA_ARB_APPLY_CHUNK_THRESHOLD as int,
            ),
            _ => (0, 0, false, 0),
        };
        small_update_is_applied_as_a_whole(job, active, removed, full, whole_up_to);
        lemma_plan_nonempty(active, removed, full, 32, 16, job is ApplyMomentumActivePools);
        let steps = steps_of(job);
        assert(steps.len() > 0);
        assert(steps.contains(steps[0]));
        if steps[0] is ApplyWhole {
            assert(steps[0] == CommandStep::ApplyWhole);
        }
    }
}

/// The pools of the arbitrage groups in admission, in order.
pub fn arb_pools(admission: &FixedCapAdmission) -> (pools: Vec<Pubkey>)
    requires
        admission.wf(),
    ensures
        ordered::sorted(pools@),
        forall|pool: Pubkey| #[trigger]
            pools@.contains(pool) <==> admission@.groups.dom().contains(
                ExplicitOwner {
                    consumer: ExplicitConsumer::Arb,
                    owner_key: ExplicitOwnerKey::Pool(pool),
                },
            ),
{
    let groups = admission.snapshot_owner_groups();
    let ghost owners = groups@.map_values(
        |s: crate::explicit_ownership::OwnerGroupSnapshot| s.owner(),
    );
    let mut pools: Vec<Pubkey> = Vec::new();
    let mut i: usize = 0;
    while i < groups.len()
        invariant
            i <= groups@.len(),
            owners == groups@.map_values(
                |s: crate::explicit_ownership::OwnerGroupSnapshot| s.owner(),
            ),
            ordered::sorted(pools@),
            forall|pool: Pubkey| #[trigger]
                pools@.contains(pool) <==> owners.take(i as int).contains(
                    ExplicitOwner {
                        consumer: ExplicitConsumer::Arb,
                        owner_key: ExplicitOwnerKey::Pool(pool),
                    },
                ),
        decreases groups@.len() - i,
    {
        let ghost before = pools@;
        let ghost owner = owners[i as int];
        if groups[i].consumer == ExplicitConsumer::Arb {
            if let ExplicitOwnerKey::Pool(pool) = groups[i].owner_key {
                let _ = ordered::add_key(&mut pools, pool);
            }
        }
        proof {
            ordered::lemma_take_step(owners, i as int);
            let t = owners.take(i + 1);
            let s = owners.take(i as int);
            assert forall|pool: Pubkey| #[trigger] pools@.contains(pool) <==> t.contains(
                ExplicitOwner {
                    consumer: ExplicitConsumer::Arb,
                    owner_key: ExplicitOwnerKey::Pool(pool),
                },
            ) by {
                let o = ExplicitOwner {
                    consumer: ExplicitConsumer::Arb,
                    owner_key: ExplicitOwnerKey::Pool(pool),
                };
                assert(t.to_set().contains(o) == (s.to_set().contains(o) || o == owner));
                assert(pools@.to_set().contains(pool) == pools@.contains(pool));
                assert(before.to_set().contains(pool) == before.contains(pool));
            }
        }
        i += 1;
    }
    proof {
        assert(owners.take(i as int) =~= owners);
        assert forall|o: ExplicitOwner| owners.contains(o) == admission@.groups.dom().contains(
            o,
        ) by {
            assert(owners.to_set().contains(o) == owners.contains(o));
        }
    }
    pools
}

/// What letting groups go came to.
#[derive(Debug, Clone, Copy, PartialEq, Eq)]
pub struct ShedEnd {
    /// The numbers to report, where groups were to go at all.
    pub report: Option<ShedResult>,
    /// Groups went, so that what hangs on them is to be pruned.
    pub evicted: bool,
}

/// The consumer whose groups a tier lets go.
pub open spec fn tier_consumer(tier: ExecHotShedTier) -> Option<ExplicitConsumer> {
    match tier {
        ExecHotShedTier::Tracker => Some(ExplicitConsumer::Tracker),
        ExecHotShedTier::Momentum => Some(ExplicitConsumer::Momentum),
        ExecHotShedTier::Arb => Some(ExplicitConsumer::Arb),
        ExecHotShedTier::Off => None,
    }
}

/// What letting groups of a tier go does.
pub open spec fn shed_outcome(
    before: explicit_admission::AdmissionView,
    tier: ExecHotShedTier,
    max_groups: usize,
    must_hot: Set<Pubkey>,
    r: ShedEnd,
    after: explicit_admission::AdmissionView,
) -> bool {
    match tier_consumer(tier) {
        None => {
            &&& after == before
            &&& r == (ShedEnd { report: None, evicted: false })
        },
        Some(consumer) => {
            let held = if tier is Arb {
                must_hot
            } else {
                Set::empty()
            };
            let (gone, skipped) = explicit_admission::shed_plan(
                explicit_admission::aged_owners(before, consumer),
                held,
                max_groups as nat,
            );
            &&& r.report matches Some(report) && report.groups_evicted == gone.len()
                && report.groups_skipped_must_hot == skipped
            &&& r.evicted == (gone.len() > 0)
            &&& after == explicit_admission::shrunk(before, gone.to_set(), before.cap)
        },
    }
}

/// Under pressure only groups of the tier go, and no arbitrage group of a pool that must stay
/// hot: as many as asked for, or all that may go, oldest first. What is reported is how many
/// went, and with no tier nothing goes and nothing is reported. What stays does not change.
pub proof fn pressure_lets_the_oldest_of_its_tier_go(
    before: explicit_admission::AdmissionView,
    tier: ExecHotShedTier,
    max_groups: usize,
    must_hot: Set<Pubkey>,
    r: ShedEnd,
    after: explicit_admission::AdmissionView,
)
    requires
        before.in_sync(),
        before.groups.dom().finite(),
        shed_outcome(before, tier, max_groups, must_hot, r, after),
    ensures
        ({
            let gone = before.groups.dom().difference(after.groups.dom());
            let free = before.groups.dom().filter(
                |o: ExplicitOwner|
                    match tier {
                        ExecHotShedTier::Tracker => o.consumer == ExplicitConsumer::Tracker,
                        ExecHotShedTier::Momentum => o.consumer == ExplicitConsumer::Momentum,
                        ExecHotShedTier::Arb => o.consumer == ExplicitConsumer::Arb && !(
                        o.owner_key matches ExplicitOwnerKey::Pool(pool) && must_hot.contains(
                            pool,
                        )),
                        ExecHotShedTier::Off => false,
                    },
            );
            &&& gone.subset_of(free)
            &&& gone.len() == if free.len() <= max_groups {
                free.len()
            } else {
                max_groups as nat
            }
            &&& forall|g: ExplicitOwner, o: ExplicitOwner| #[trigger]
                gone.contains(g) && #[trigger] free.contains(o) && !gone.contains(o)
                    ==> before.stamps[g] <= before.stamps[o]
            &&& forall|o: ExplicitOwner| #[trigger]
                after.groups.dom().contains(o) ==> before.groups.dom().contains(o)
                    && after.groups[o] == before.groups[o] && after.stamps[o]
                    == before.stamps[o]
            &&& after.in_sync()
            &&& after.cap == before.cap
            &&& after.next == before.next
            &&& r.evicted <==> gone.len() > 0
            &&& r.report is None <==> tier is Off
            &&& r.report matches Some(report) ==> report.groups_evicted == gone.len()
            &&& r.report matches Some(report) ==> (!(tier is Arb)
                ==> report.groups_skipped_must_hot == 0)
        }),
{
    let gone = before.groups.dom().difference(after.groups.dom());
    let free = before.groups.dom().filter(
        |o: ExplicitOwner|
            match tier {
                ExecHotShedTier::Tracker => o.consumer == ExplicitConsumer::Tracker,
                ExecHotShedTier::Momentum => o.consumer == ExplicitConsumer::Momentum,
                ExecHotShedTier::Arb => o.consumer == ExplicitConsumer::Arb && !(
                o.owner_key matches ExplicitOwnerKey::Pool(pool) && must_hot.contains(pool)),
                ExecHotShedTier::Off => false,
            },
    );
    if tier is Off {
        assert(gone =~= Set::empty());
        assert(free =~= Set::empty());
    } else {
        let consumer = tier_consumer(tier)->0;
        let held = if tier is Arb {
            must_hot
        } else {
            Set::empty()
        };
        explicit_admission::shedding_lets_the_oldest_free_groups_go(
            before,
            consumer,
            held,
            max_groups as nat,
        );
        let named = explicit_admission::shed_plan(
            explicit_admission::aged_owners(before, consumer),
            held,
            max_groups as nat,
        ).0;
        named.unique_seq_to_set();
        let able = before.groups.dom().intersect(before.stamps.dom()).filter(
            |o: ExplicitOwner|
                o.consumer == consumer && !(o.owner_key matches ExplicitOwnerKey::Pool(pool)
                    && held.contains(pool)),
        );
        assert(able =~= free);
        assert(named.to_set() =~= gone);
        assert forall|g: ExplicitOwner, o: ExplicitOwner| #[trigger]
            gone.contains(g) && #[trigger] free.contains(o) && !gone.contains(
                o,
            ) implies before.stamps[g] <= before.stamps[o] by {
            assert(named.to_set().contains(g));
            assert(named.contains(g));
            assert(able.contains(o));
            assert(!named.contains(o)) by {
                assert(!named.to_set().contains(o));
            }
        }
        if !(tier is Arb) {
            explicit_admission::shedding_counts_what_it_passed_over(
                before,
                consumer,
                held,
                max_groups as nat,
            );
            lemma_nothing_held(before, consumer, named, max_groups as nat);
        }
    }
}

/// With no pool that must stay, nothing is passed over.
proof fn lemma_nothing_held(
    before: explicit_admission::AdmissionView,
    consumer: ExplicitConsumer,
    gone: Seq<ExplicitOwner>,
    max_groups: nat,
)
    ensures
        before.groups.dom().intersect(before.stamps.dom()).filter(
            |o: ExplicitOwner|
                o.consumer == consumer && (o.owner_key matches ExplicitOwnerKey::Pool(pool)
                    && Set::<Pubkey>::empty().contains(pool)) && (gone.len() < max_groups
                    || exists|g: ExplicitOwner| #[trigger]
                    gone.contains(g) && (before.stamps[o] < before.stamps[g] || (before.stamps[o]
                        == before.stamps[g] && o.rank() < g.rank()))),
        ).len() == 0,
{
    let none = before.groups.dom().intersect(before.stamps.dom()).filter(
        |o: ExplicitOwner|
            o.consumer == consumer && (o.owner_key matches ExplicitOwnerKey::Pool(pool)
                && Set::<Pubkey>::empty().contains(pool)) && (gone.len() < max_groups || exists|
                g: ExplicitOwner,
            | #[trigger]
                gone.contains(g) && (before.stamps[o] < before.stamps[g] || (before.stamps[o]
                    == before.stamps[g] && o.rank() < g.rank()))),
    );
    assert(none =~= Set::empty());
}

/// Lets up to `max_groups` groups of the tier go, oldest first. Arbitrage groups of the pools
/// `must_hot` stay; other groups are not held to them.
pub fn apply_exec_hot_pressure_shed(
    admission: &mut FixedCapAdmission,
    tier: ExecHotShedTier,
    max_groups: usize,
    must_hot: &[Pubkey],
) -> (r: ShedEnd)
    requires
        old(admission).wf(),
    ensures
        final(admission).wf(),
        final(admission).switches() == old(admission).switches(),
        shed_outcome(
            old(admission)@,
            tier,
            max_groups,
            must_hot@.to_set(),
            r,
            final(admission)@,
        ),
{
    let free: Vec<Pubkey> = Vec::new();
    assert(free@.to_set() =~= Set::empty());
    let report = match tier {
        ExecHotShedTier::Tracker => admission.shed_owner_groups(
            ExplicitConsumer::Tracker,
            max_groups,
            free.as_slice(),
        ),
        ExecHotShedTier::Momentum => admission.shed_owner_groups(
            ExplicitConsumer::Momentum,
            max_groups,
            free.as_slice(),
        ),
        ExecHotShedTier::Arb => admission.shed_owner_groups(
            ExplicitConsumer::Arb,
            max_groups,
            must_hot,
        ),
        ExecHotShedTier::Off => {
            return ShedEnd { report: None, evicted: false };
        },
    };
    let evicted = report.groups_evicted > 0;
    ShedEnd { report: Some(report), evicted }
}

/// Demand for a mint counts as applied only where it succeeded, so that what was refused for
/// now is replayed; all else counts as applied.
pub open spec fn stream_advances(stream: TrackCommandStream, succeeded: bool) -> bool {
    stream.per_mint() ==> succeeded
}

pub fn track_protocol_should_advance_revision(
    stream: TrackCommandStream,
    handler_succeeded: bool,
) -> (r: bool)
    ensures
        r == stream_advances(stream, handler_succeeded),
{
    match stream {
        TrackCommandStream::Wallet | TrackCommandStream::Tracker => handler_succeeded,
        TrackCommandStream::Momentum | TrackCommandStream::Arb | TrackCommandStream::Control => {
            true
        },
    }
}

fn track_mints_batch_requires_replay_on_failure(payload: &TrackWorkerCommand) -> (r: bool)
    ensures
        r == (payload is TrackMints),
{
    match payload {
        TrackWorkerCommand::TrackMints { .. } => true,
        _ => false,
    }
}

/// Whether a command counts as applied. A batch of mints is demand too, though its stream is
/// that of control.
pub open spec fn advances(cmd: ImmutableTrackCommand, succeeded: bool) -> bool {
    if cmd.payload is TrackMints {
        succeeded
    } else {
        stream_advances(cmd.stream, succeeded)
    }
}

/// `after` is the state once a command has been handled: applied, or kept for replay. A stale
/// command changes nothing.
pub open spec fn is_handled(
    before: StoreView,
    cmd: ImmutableTrackCommand,
    succeeded: bool,
    after: StoreView,
) -> bool {
    if !pending::applicable(before.applied, cmd) {
        after == before
    } else if advances(cmd, succeeded) {
        after == if cmd.stream is Wallet {
            before.wallet_marked(cmd)
        } else {
            before.marked(cmd)
        }
    } else {
        &&& pending::is_staged(before.pending, before.cap, cmd, after.pending)
        &&& after == (StoreView { pending: after.pending, ..before })
    }
}

/// Notes how a command was handled: it counts as applied, or it is kept for replay. A stale
/// command is left alone.
pub fn track_worker_apply_protocol_command(
    store: &mut BoundedProtocolStore,
    cmd: ImmutableTrackCommand,
    handler_succeeded: bool,
)
    requires
        old(store).wf(),
        cmd.fits(),
    ensures
        final(store).wf(),
        is_handled(old(store)@, cmd, handler_succeeded, final(store)@),
{
    if !store.is_applicable(&cmd) {
        return;
    }
    let should_advance = if track_mints_batch_requires_replay_on_failure(&cmd.payload) {
        handler_succeeded
    } else {
        track_protocol_should_advance_revision(cmd.stream, handler_succeeded)
    };
    if should_advance {
        if cmd.stream == TrackCommandStream::Wallet {
            store.mark_applied_wallet_demand(&cmd);
        } else {
            store.mark_applied(&cmd);
        }
    } else {
        let _ = store.stage_on_queue_full(cmd);
    }
}

/// Demand that was refused for now is not lost: it waits for replay and is still applicable.
pub proof fn refused_demand_is_replayed(
    before: StoreView,
    cmd: ImmutableTrackCommand,
    after: StoreView,
)
    requires
        (cmd.stream.per_mint() && cmd.payload.demand_mint() is Some) || (cmd.stream is Control
            && cmd.payload is TrackMints),
        pending::applicable(before.applied, cmd),
        is_handled(before, cmd, false, after),
    ensures
        after.pending.last() == cmd,
        after.applied == before.applied,
        pending::applicable(after.applied, cmd),
{
}

/// A stale command changes nothing, however its handler ended.
pub proof fn stale_command_is_left_alone(
    before: StoreView,
    cmd: ImmutableTrackCommand,
    succeeded: bool,
    after: StoreView,
)
    requires
        !pending::applicable(before.applied, cmd),
        is_handled(before, cmd, succeeded, after),
    ensures
        after == before,
{
}

/// A command that counts as applied is not applied again.
pub proof fn handled_command_does_not_replay(
    before: StoreView,
    cmd: ImmutableTrackCommand,
    succeeded: bool,
    after: StoreView,
)
    requires
        before.applied.streams.len() == 5,
        advances(cmd, succeeded),
        is_handled(before, cmd, succeeded, after),
    ensures
        !pending::applicable(after.applied, cmd),
{
    pending::applied_commands_do_not_replay(before, cmd, cmd);
}

/// What to do with a command that is to be queued.
#[derive(Debug, Clone, PartialEq, Eq)]
pub enum EnqueueStep {
    /// One like it is queued or waits.
    Covered,
    /// The queue is full; it waits.
    Waits(StageResult),
    /// Try to send it.
    Send(ImmutableTrackCommand),
}

/// `after` and `step` are what comes of a command that is to be queued.
pub open spec fn is_enqueued(
    before: StoreView,
    job: TrackWorkerCommand,
    queue_full: bool,
    after: StoreView,
    step: EnqueueStep,
) -> bool {
    let (covered, mid) = before.deduped(job);
    let (cmd, issued) = mid.wrapped(job);
    if covered {
        step == EnqueueStep::Covered && after == mid
    } else if queue_full {
        &&& step == EnqueueStep::Waits(StageResult::Staged)
        &&& pending::is_staged(issued.pending, issued.cap, cmd, after.pending)
        &&& after == (StoreView { pending: after.pending, ..issued })
    } else {
        step == EnqueueStep::Send(cmd) && after == issued
    }
}

/// Begins to queue a command: it may be covered, have to wait, or be ready to send.
pub fn track_worker_try_enqueue(
    store: &mut BoundedProtocolStore,
    job: TrackWorkerCommand,
    queue_full: bool,
) -> (step: EnqueueStep)
    requires
        old(store).wf(),
    ensures
        final(store).wf(),
        is_enqueued(old(store)@, job, queue_full, final(store)@, step),
        step matches EnqueueStep::Send(cmd) ==> cmd.fits(),
{
    if store.try_dedupe_enqueue(&job) {
        return EnqueueStep::Covered;
    }
    let cmd = store.wrap_command(job);
    if queue_full {
        EnqueueStep::Waits(store.stage_on_queue_full(cmd))
    } else {
        EnqueueStep::Send(cmd)
    }
}

/// Ends queueing a command that was sent, or that the queue refused after all and that waits
/// instead. True if it was not lost, which it never is.
pub fn track_worker_finish_enqueue(
    store: &mut BoundedProtocolStore,
    cmd: ImmutableTrackCommand,
    sent: bool,
) -> (kept: bool)
    requires
        old(store).wf(),
        cmd.fits(),
    ensures
        final(store).wf(),
        kept,
        if sent {
            final(store)@ == old(store)@.queued(cmd.payload).begun()
        } else {
            &&& pending::is_staged(old(store)@.pending, old(store)@.cap, cmd, final(store)@.pending)
            &&& final(store)@ == (StoreView { pending: final(store)@.pending, ..old(store)@ })
        },
{
    if sent {
        store.note_inflight_enqueued(&cmd);
        store.begin_inflight();
        true
    } else {
        match store.stage_on_queue_full(cmd) {
            StageResult::Staged => true,
            StageResult::Lost => false,
        }
    }
}

/// Notes that a command has left the queue.
pub fn track_worker_on_dequeue(store: &mut BoundedProtocolStore, cmd: &ImmutableTrackCommand)
    requires
        old(store).wf(),
    ensures
        final(store).wf(),
        final(store)@ == old(store)@.dequeued(cmd.payload).ended(),
{
    store.note_inflight_dequeued(cmd);
    store.end_inflight();
}

/// A command that is to be queued is sent as it is, with a revision, where there is room; where
/// there is none it waits. Only a request to synchronise or to go on evicting can be covered by
/// another. What has been applied does not change.
pub proof fn queued_command_is_sent_or_waits(
    before: StoreView,
    job: TrackWorkerCommand,
    queue_full: bool,
    after: StoreView,
    step: EnqueueStep,
)
    requires
        is_enqueued(before, job, queue_full, after, step),
    ensures
        step is Covered ==> job.strength() is Some || job is ContinueGeyserEvict,
        step is Waits ==> queue_full && after.pending.len() > 0,
        step matches EnqueueStep::Send(cmd) ==> {
            &&& !queue_full
            &&& cmd.payload == job
            &&& cmd.stream == job.stream()
            &&& after.pending == before.pending
        },
        after.applied == before.applied,
        after.inflight == before.inflight,
        after.syncs == before.syncs,
        after.evicts == before.evicts,
{
    let (covered, mid) = before.deduped(job);
    if !covered && queue_full && job is ContinueGeyserEvict {
        let cmd = mid.wrapped(job).0;
        if pending::says_nothing_new(mid.pending, cmd) {
            let k = choose|k: int|
                0 <= k < mid.pending.len()
                    && (#[trigger] mid.pending[k]).payload is ContinueGeyserEvict;
            assert(after.pending.len() > 0);
        }
    }
}

/// An applicable command counts as applied, unless it is demand for a mint or a batch of mints
/// and its handler refused it: then it is kept, and nothing counts as applied. Applied or kept,
/// nothing else of the store changes.
pub proof fn applicable_command_is_applied_or_kept(
    before: StoreView,
    cmd: ImmutableTrackCommand,
    succeeded: bool,
    after: StoreView,
)
    requires
        before.applied.streams.len() == 5,
        pending::applicable(before.applied, cmd),
        is_handled(before, cmd, succeeded, after),
    ensures
        ({
            let refused = !succeeded && (cmd.payload is TrackMints || cmd.stream is Wallet
                || cmd.stream is Tracker);
            &&& refused ==> {
                &&& after == (StoreView { pending: after.pending, ..before })
                &&& !(cmd.payload is ContinueGeyserEvict) ==> after.pending.len() > 0
            }
            &&& !refused ==> {
                &&& !pending::applicable(after.applied, cmd)
                &&& after == (StoreView { applied: after.applied, ..before })
            }
        }),
{
    if advances(cmd, succeeded) {
        handled_command_does_not_replay(before, cmd, succeeded, after);
    }
}

} // verus!
