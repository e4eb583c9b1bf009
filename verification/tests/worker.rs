use track::nats::{MomentumActivePinReason, MomentumActivePoolEntry, MomentumActivePoolsUpdate};
use track::pending::BoundedProtocolStore;
use track::pubkey::Pubkey;
use track::worker::{
    apply_momentum_active_pools_on_track_worker, command_outcome,
    track_protocol_should_advance_revision, track_worker_apply_protocol_command,
    track_worker_finish_enqueue, track_worker_process_command, track_worker_try_enqueue,
    CommandStep, EnqueueStep,
};
use track::worker_commands::{
    ImmutableTrackCommand, TrackCommandStream, TrackPinReason, TrackWorkerCommand,
};

fn unique() -> Pubkey {
    Pubkey::new_from_array(solana_sdk::pubkey::Pubkey::new_unique().to_bytes())
}

fn empty_momentum_update() -> MomentumActivePoolsUpdate {
    MomentumActivePoolsUpdate {
        version: 1,
        ts_unix_ms: 0,
        active: vec![],
        removed: vec![],
        full_active_snapshot: false,
    }
}

/// Carries the steps of a command out by a handler.
fn run_command(
    store: &mut BoundedProtocolStore,
    cmd: ImmutableTrackCommand,
    handler: &mut dyn FnMut(CommandStep) -> bool,
) {
    if !store.is_applicable(&cmd) {
        return;
    }
    let steps = track_worker_process_command(&cmd.payload);
    let results: Vec<bool> = steps.into_iter().map(|step| handler(step)).collect();
    let outcome = command_outcome(&cmd.payload, &results);
    track_worker_apply_protocol_command(store, cmd, outcome.succeeded);
}

fn drain_pending(
    store: &mut BoundedProtocolStore,
    handler: &mut dyn FnMut(CommandStep) -> bool,
) {
    for cmd in store.take_applicable_pending_sorted() {
        run_command(store, cmd, handler);
    }
}

#[test]
fn queue_full_preserves_demand_in_pending() {
    let mut store = BoundedProtocolStore::default_caps();
    let step = track_worker_try_enqueue(
        &mut store,
        TrackWorkerCommand::ApplyMomentumActivePools(empty_momentum_update()),
        true,
    );
    assert!(
        matches!(step, EnqueueStep::Waits(track::pending::StageResult::Staged)),
        "queue-full must stage to pending, not drop"
    );
    assert_eq!(store.pending_len(), 1);
}

#[test]
fn superseded_revision_skipped_on_apply() {
    let mut store = BoundedProtocolStore::default_caps();
    let cmd = store.wrap_command(TrackWorkerCommand::ApplyMomentumActivePools(
        empty_momentum_update(),
    ));
    store.mark_applied(&cmd);
    assert!(!store.is_applicable(&cmd));
    let mut calls = 0;
    run_command(&mut store, cmd, &mut |_| {
        calls += 1;
        true
    });
    assert_eq!(calls, 0);
}

#[test]
fn control_push_advances_revision_superseding_older_pending_push() {
    let mut store = BoundedProtocolStore::default_caps();
    let push_old = store.wrap_command(TrackWorkerCommand::ScheduleGeyserPush);
    store.stage_on_queue_full(push_old.clone());
    let push_new = store.wrap_command(TrackWorkerCommand::ScheduleGeyserPush);
    store.mark_applied(&push_new);
    assert!(!store.is_applicable(&push_old));
    let applicable = store.take_applicable_pending_sorted();
    assert!(
        applicable.is_empty(),
        "older pending push must be superseded after newer push advances watermark"
    );
}

#[test]
fn wallet_stream_revision_held_on_handler_failure() {
    let mut store = BoundedProtocolStore::default_caps();
    let mint = unique();
    let cmd = store.wrap_command(TrackWorkerCommand::ApplyWalletPin { mint });
    assert_eq!(cmd.stream, TrackCommandStream::Wallet);
    assert!(!track_protocol_should_advance_revision(cmd.stream, false));
    assert!(store.is_applicable(&cmd));
    assert!(track_protocol_should_advance_revision(cmd.stream, true));
    store.mark_applied(&cmd);
    assert!(!store.is_applicable(&cmd));
}

#[test]
fn tracker_stream_revision_held_on_handler_failure() {
    let mut store = BoundedProtocolStore::default_caps();
    let mint = unique();
    let cmd = store.wrap_command(TrackWorkerCommand::TrackMint { mint, pin: None });
    assert_eq!(cmd.stream, TrackCommandStream::Tracker);
    assert!(!track_protocol_should_advance_revision(cmd.stream, false));
    assert!(store.is_applicable(&cmd));
}

#[test]
fn wallet_pin_replays_via_protocol_after_transient_reject() {
    let mut store = BoundedProtocolStore::default_caps();
    let mint = unique();
    let cmd = store.wrap_command(TrackWorkerCommand::ApplyWalletPin { mint });
    let mut fail_once = true;
    let mut pinned: Vec<Pubkey> = Vec::new();

    run_command(&mut store, cmd.clone(), &mut |_| {
        if fail_once {
            fail_once = false;
            return false;
        }
        pinned.push(mint);
        true
    });
    assert!(
        store.is_applicable(&cmd),
        "failed wallet pin must not advance revision"
    );
    assert_eq!(
        store.pending_len(),
        1,
        "failed wallet pin must be re-staged into bounded pending"
    );
    assert!(pinned.is_empty());

    drain_pending(&mut store, &mut |step| match step {
        CommandStep::WalletPin { mint } => {
            pinned.push(mint);
            true
        }
        _ => false,
    });
    assert!(
        !store.is_applicable(&cmd),
        "successful wallet pin must advance revision"
    );
    assert_eq!(pinned.as_slice(), &[mint]);
}

#[test]
fn wallet_track_mint_replays_after_transient_reject() {
    let mut store = BoundedProtocolStore::default_caps();
    let mint = unique();
    let cmd = store.wrap_command(TrackWorkerCommand::TrackMint {
        mint,
        pin: Some(TrackPinReason::Wallet),
    });
    assert_eq!(cmd.stream, TrackCommandStream::Wallet);

    run_command(&mut store, cmd.clone(), &mut |_| false);
    assert!(store.is_applicable(&cmd));
    assert_eq!(store.pending_len(), 1);

    let mut pinned: Vec<Pubkey> = Vec::new();
    drain_pending(&mut store, &mut |step| match step {
        CommandStep::TrackMint { mint, .. } => {
            pinned.push(mint);
            true
        }
        _ => false,
    });
    assert_eq!(pinned.as_slice(), &[mint]);
}

#[test]
fn repeated_tracker_mint_advances_revision_without_pending_growth() {
    let mut store = BoundedProtocolStore::default_caps();
    let mint = unique();
    for _ in 0..2 {
        let cmd = store.wrap_command(TrackWorkerCommand::TrackMint { mint, pin: None });
        run_command(&mut store, cmd.clone(), &mut |_| true);
        assert_eq!(
            store.pending_len(),
            0,
            "idempotent tracker mint must not re-stage pending"
        );
        assert!(
            !store.is_applicable(&cmd),
            "each tracker mint command must advance revision"
        );
    }
}

#[test]
fn wallet_withdraw_supersedes_staged_tracker_replay() {
    let mut store = BoundedProtocolStore::default_caps();
    let mint = unique();
    let mut mints: Vec<Pubkey> = Vec::new();

    let tracker_cmd = store.wrap_command(TrackWorkerCommand::TrackMint { mint, pin: None });
    store.stage_on_queue_full(tracker_cmd.clone());
    mints.push(mint);

    let withdraw_cmd = store.wrap_command(TrackWorkerCommand::WithdrawWalletPin { mint });
    run_command(&mut store, withdraw_cmd, &mut |step| match step {
        CommandStep::WithdrawWalletPin { mint } => {
            mints.retain(|m| *m != mint);
            true
        }
        _ => false,
    });
    assert!(!mints.contains(&mint));

    drain_pending(&mut store, &mut |step| match step {
        CommandStep::TrackMint { mint, .. } => {
            mints.push(mint);
            true
        }
        _ => false,
    });
    assert!(
        !mints.contains(&mint),
        "superseded tracker replay must not re-admit mint after wallet withdraw"
    );
    assert!(!store.is_applicable(&tracker_cmd));
}

fn momentum_entries(count: usize) -> Vec<MomentumActivePoolEntry> {
    (0..count)
        .map(|i| MomentumActivePoolEntry {
            mint: format!("mint-{i}"),
            pool: format!("pool-{i}"),
            pin_reason: MomentumActivePinReason::Tracker,
        })
        .collect()
}

#[test]
fn chunked_momentum_apply_retries_deferred_hot_pool_reserves() {
    let update = MomentumActivePoolsUpdate {
        version: 1,
        ts_unix_ms: 1,
        active: momentum_entries(48),
        removed: vec![],
        full_active_snapshot: false,
    };
    let steps = apply_momentum_active_pools_on_track_worker(&update);
    let retries = steps
        .iter()
        .filter(|step| matches!(step, CommandStep::RetryDeferred))
        .count();
    assert_eq!(retries, 1);
}

#[test]
fn chunks_of_a_large_update_cover_it_in_order() {
    let update = MomentumActivePoolsUpdate {
        version: 1,
        ts_unix_ms: 1,
        active: momentum_entries(35),
        removed: vec![],
        full_active_snapshot: true,
    };
    assert_eq!(
        apply_momentum_active_pools_on_track_worker(&update),
        vec![
            CommandStep::ApplyReconcile,
            CommandStep::ApplyActive { from: 0, to: 16 },
            CommandStep::ApplyActive { from: 16, to: 32 },
            CommandStep::ApplyActive { from: 32, to: 35 },
            CommandStep::RetryDeferred,
        ]
    );
}

#[test]
fn update_at_the_threshold_is_applied_whole() {
    let mut update = MomentumActivePoolsUpdate {
        version: 1,
        ts_unix_ms: 1,
        active: momentum_entries(32),
        removed: vec![],
        full_active_snapshot: true,
    };
    assert_eq!(
        apply_momentum_active_pools_on_track_worker(&update),
        vec![CommandStep::ApplyWhole]
    );
    update.active = momentum_entries(33);
    assert_eq!(apply_momentum_active_pools_on_track_worker(&update).len(), 5);
}

#[test]
fn large_update_that_changes_nothing_reports_pins_anew() {
    let update = MomentumActivePoolsUpdate {
        version: 1,
        ts_unix_ms: 1,
        active: momentum_entries(33),
        removed: vec![],
        full_active_snapshot: false,
    };
    let job = TrackWorkerCommand::ApplyMomentumActivePools(update);
    let steps = track_worker_process_command(&job);
    let none = vec![false; steps.len()];
    let outcome = command_outcome(&job, &none);
    assert!(!outcome.succeeded);
    assert!(outcome.refresh_pins_gauge);
    let mut some = none.clone();
    some[steps.len() - 1] = true;
    let outcome = command_outcome(&job, &some);
    assert!(outcome.succeeded);
    assert!(!outcome.refresh_pins_gauge);
}

#[test]
fn batch_of_mints_succeeds_only_as_a_whole_and_waits_otherwise() {
    let mut store = BoundedProtocolStore::default_caps();
    let job = TrackWorkerCommand::TrackMints {
        entries: vec![(unique(), None), (unique(), None)],
    };
    assert!(command_outcome(&job, &[true, true]).succeeded);
    assert!(!command_outcome(&job, &[true, false]).succeeded);
    let cmd = store.wrap_command(job);
    assert_eq!(cmd.stream, TrackCommandStream::Control);
    track_worker_apply_protocol_command(&mut store, cmd.clone(), false);
    assert!(store.is_applicable(&cmd));
    assert_eq!(store.pending_len(), 1);
}

#[test]
fn control_push_evict_variants_advance_revision() {
    let mut store = BoundedProtocolStore::default_caps();
    for payload in [
        TrackWorkerCommand::ScheduleGeyserPush,
        TrackWorkerCommand::ScheduleGeyserPushDebounced,
        TrackWorkerCommand::ContinueGeyserEvict,
        TrackWorkerCommand::ShedTrackerUnderExecHotPressure { max_groups: 8 },
        TrackWorkerCommand::ShedMomentumUnderExecHotPressure { max_groups: 8 },
        TrackWorkerCommand::ShedArbUnderExecHotPressure { max_groups: 8 },
    ] {
        let cmd = store.wrap_command(payload);
        store.mark_applied(&cmd);
        assert!(
            !store.is_applicable(&cmd),
            "applied revision must not remain applicable"
        );
    }
}

#[test]
fn enqueue_dedupe_skips_duplicate_sync_when_queued() {
    let mut store = BoundedProtocolStore::default_caps();
    match track_worker_try_enqueue(&mut store, TrackWorkerCommand::ScheduleGeyserPush, false) {
        EnqueueStep::Send(cmd) => {
            assert!(track_worker_finish_enqueue(&mut store, cmd, true));
        }
        other => panic!("expected a command to send, got {other:?}"),
    }
    assert_eq!(
        track_worker_try_enqueue(
            &mut store,
            TrackWorkerCommand::ScheduleGeyserPushDebounced,
            false
        ),
        EnqueueStep::Covered
    );
    assert_eq!(
        store.pending_len(),
        0,
        "deduped sync must not stage when inflight"
    );
}

#[test]
fn command_refused_by_the_queue_waits() {
    let mut store = BoundedProtocolStore::default_caps();
    let mint = unique();
    match track_worker_try_enqueue(
        &mut store,
        TrackWorkerCommand::TrackMint { mint, pin: None },
        false,
    ) {
        EnqueueStep::Send(cmd) => {
            assert!(track_worker_finish_enqueue(&mut store, cmd, false));
        }
        other => panic!("expected a command to send, got {other:?}"),
    }
    assert_eq!(store.pending_len(), 1);
    assert_eq!(store.inflight_len(), 0);
}

#[test]
fn stale_command_is_left_alone() {
    let mut store = BoundedProtocolStore::default_caps();
    let mint = unique();
    let older = store.wrap_command(TrackWorkerCommand::ApplyWalletPin { mint });
    let newer = store.wrap_command(TrackWorkerCommand::ApplyWalletPin { mint });
    track_worker_apply_protocol_command(&mut store, newer.clone(), true);
    assert!(!store.is_applicable(&older));
    for succeeded in [false, true] {
        track_worker_apply_protocol_command(&mut store, older.clone(), succeeded);
        assert_eq!(store.pending_len(), 0);
        assert!(!store.is_applicable(&older));
        assert!(!store.is_applicable(&newer));
    }
    let next = store.wrap_command(TrackWorkerCommand::ApplyWalletPin { mint });
    assert!(store.is_applicable(&next));
}
