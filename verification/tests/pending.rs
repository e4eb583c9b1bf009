use track::nats::{
    ArbTrackActiveEntry, ArbTrackActiveReason, ArbTrackRequestsUpdate, MomentumActivePinReason,
    MomentumActivePoolEntry, MomentumActivePoolsUpdate,
};
use track::pending::{
    BoundedProtocolStore, MARKET_DATA_TRACK_INFLIGHT_CAP, MARKET_DATA_TRACK_PENDING_CAP,
    StageResult,
};
use track::pubkey::Pubkey;
use track::worker_commands::{
    ImmutableTrackCommand, TrackCommandStream, TrackPinReason, TrackWorkerCommand,
    demand_mint_for_command,
};

fn unique() -> Pubkey {
    Pubkey::new_from_array(solana_sdk::pubkey::Pubkey::new_unique().to_bytes())
}

fn momentum_cmd_with_pool(version: u32, mint: &str, pool: &str) -> TrackWorkerCommand {
    TrackWorkerCommand::ApplyMomentumActivePools(MomentumActivePoolsUpdate {
        version,
        ts_unix_ms: 0,
        active: vec![MomentumActivePoolEntry {
            mint: mint.into(),
            pool: pool.into(),
            pin_reason: MomentumActivePinReason::Tracker,
        }],
        removed: vec![],
        full_active_snapshot: false,
    })
}

fn arb_cmd_with_pool(version: u32, pool: &str) -> TrackWorkerCommand {
    TrackWorkerCommand::ApplyArbTrackRequests(ArbTrackRequestsUpdate {
        version,
        ts_unix_ms: 0,
        active: vec![ArbTrackActiveEntry {
            pool: pool.into(),
            reason: ArbTrackActiveReason::Baseline,
        }],
        removed: vec![],
        reconcile: false,
    })
}

fn momentum_cmd(version: u32) -> TrackWorkerCommand {
    TrackWorkerCommand::ApplyMomentumActivePools(MomentumActivePoolsUpdate {
        version,
        ts_unix_ms: 0,
        active: vec![],
        removed: vec![],
        full_active_snapshot: false,
    })
}

#[test]
fn queue_full_stages_in_pending_no_loss() {
    let mut store = BoundedProtocolStore::new(8, 64);
    let cmd = store.wrap_command(momentum_cmd(1));
    assert_eq!(store.stage_on_queue_full(cmd.clone()), StageResult::Staged);
    assert_eq!(store.pending_len(), 1);
    assert!(store.pending().iter().any(|c| c.revision == cmd.revision));
}

#[test]
fn replay_drain_applies_staged_commands() {
    let mut store = BoundedProtocolStore::new(8, 64);
    let c1 = store.wrap_command(momentum_cmd(1));
    let c2 = store.wrap_command(momentum_cmd(2));
    store.stage_on_queue_full(c1);
    store.stage_on_queue_full(c2.clone());
    let mut applied = Vec::new();
    for cmd in store.take_applicable_pending_sorted() {
        store.mark_applied(&cmd);
        applied.push(cmd.revision);
    }
    assert_eq!(
        applied,
        vec![2],
        "newer momentum revision supersedes older pending"
    );
    assert_eq!(store.pending_len(), 0);
}

#[test]
fn stale_revision_ignored_idempotently() {
    let mut store = BoundedProtocolStore::new(8, 64);
    let c1 = store.wrap_command(momentum_cmd(1));
    let c2 = store.wrap_command(momentum_cmd(2));
    store.mark_applied_stream(TrackCommandStream::Momentum, 2);
    store.stage_on_queue_full(c1);
    store.stage_on_queue_full(c2);
    let mut applied = Vec::new();
    for cmd in store.take_applicable_pending_sorted() {
        if store.is_applicable(&cmd) {
            store.mark_applied(&cmd);
            applied.push(cmd.revision);
        }
    }
    assert!(applied.is_empty());
    assert_eq!(store.pending_len(), 0);
}

#[test]
fn out_of_order_pending_sorted_by_revision() {
    let mut store = BoundedProtocolStore::new(8, 64);
    let c1 = ImmutableTrackCommand::new(TrackCommandStream::Momentum, 1, momentum_cmd(1));
    let c2 = ImmutableTrackCommand::new(TrackCommandStream::Momentum, 2, momentum_cmd(2));
    let c3 = ImmutableTrackCommand::new(TrackCommandStream::Momentum, 3, momentum_cmd(3));
    store.stage_on_queue_full(c3);
    store.stage_on_queue_full(c1);
    store.stage_on_queue_full(c2);
    let mut applied = Vec::new();
    for cmd in store.take_applicable_pending_sorted() {
        store.mark_applied(&cmd);
        applied.push(cmd.revision);
    }
    assert_eq!(
        applied,
        vec![2, 3],
        "superseded rev 1 dropped; rev 2 and 3 remain applicable"
    );
}

#[test]
fn pending_cap_bounded_by_eviction() {
    let cap = 4;
    let mut store = BoundedProtocolStore::new(cap, 64);
    for v in 0..cap + 2 {
        let cmd = store.wrap_command(momentum_cmd(v as u32));
        assert_eq!(store.stage_on_queue_full(cmd), StageResult::Staged);
    }
    assert!(store.pending_len() <= cap);
}

#[test]
fn all_indices_bounded() {
    let mut store = BoundedProtocolStore::new(
        MARKET_DATA_TRACK_PENDING_CAP,
        MARKET_DATA_TRACK_INFLIGHT_CAP,
    );
    for v in 0..MARKET_DATA_TRACK_PENDING_CAP + 4 {
        let cmd = store.wrap_command(momentum_cmd(v as u32));
        store.stage_on_queue_full(cmd);
    }
    assert!(store.pending_len() <= MARKET_DATA_TRACK_PENDING_CAP);
    assert_eq!(TrackCommandStream::COUNT, 5);
}

#[test]
fn wallet_withdraw_supersedes_older_pending_pin() {
    let mut store = BoundedProtocolStore::new(8, 64);
    let mint = unique();
    let pin_old = store.wrap_command(TrackWorkerCommand::ApplyWalletPin { mint });
    store.stage_on_queue_full(pin_old.clone());
    let withdraw = store.wrap_command(TrackWorkerCommand::WithdrawWalletPin { mint });
    store.mark_applied(&withdraw);
    assert!(!store.is_applicable(&pin_old));
    let applicable = store.take_applicable_pending_sorted();
    assert!(
        applicable.is_empty(),
        "stale wallet pin must not replay after newer withdraw advances watermark"
    );
}

#[test]
fn wallet_later_mint_does_not_supersede_pending_pin_for_other_mint() {
    let mut store = BoundedProtocolStore::new(8, 64);
    let mint_a = unique();
    let mint_b = unique();
    let pin_a = store.wrap_command(TrackWorkerCommand::ApplyWalletPin { mint: mint_a });
    store.stage_on_queue_full(pin_a.clone());
    let pin_b = store.wrap_command(TrackWorkerCommand::ApplyWalletPin { mint: mint_b });
    store.mark_applied(&pin_b);
    assert!(
        store.is_applicable(&pin_a),
        "pending wallet pin for mint A must remain applicable after mint B advances"
    );
    let applicable = store.take_applicable_pending_sorted();
    assert_eq!(applicable.len(), 1);
    assert_eq!(
        demand_mint_for_command(&applicable[0].payload),
        Some(mint_a)
    );
}

#[test]
fn wallet_withdraw_supersedes_pending_tracker_demand_for_same_mint() {
    let mut store = BoundedProtocolStore::new(8, 64);
    let mint = unique();
    let tracker = store.wrap_command(TrackWorkerCommand::TrackMint { mint, pin: None });
    store.stage_on_queue_full(tracker.clone());
    let withdraw = store.wrap_command(TrackWorkerCommand::WithdrawWalletPin { mint });
    store.mark_applied_wallet_demand(&withdraw);
    assert!(
        !store.is_applicable(&tracker),
        "wallet withdraw must supersede pending tracker demand for same mint"
    );
    let applicable = store.take_applicable_pending_sorted();
    assert!(
        applicable.is_empty(),
        "superseded tracker demand must not replay after wallet withdraw"
    );
}

#[test]
fn wallet_pin_supersedes_pending_tracker_demand_for_same_mint() {
    let mut store = BoundedProtocolStore::new(8, 64);
    let mint = unique();
    let tracker = store.wrap_command(TrackWorkerCommand::TrackMint { mint, pin: None });
    store.stage_on_queue_full(tracker.clone());
    let pin = store.wrap_command(TrackWorkerCommand::ApplyWalletPin { mint });
    store.mark_applied_wallet_demand(&pin);
    assert!(!store.is_applicable(&tracker));
    assert!(store.take_applicable_pending_sorted().is_empty());
}

#[test]
fn wallet_track_mint_uses_wallet_stream_per_mint_revision() {
    let mut store = BoundedProtocolStore::new(8, 64);
    let mint = unique();
    let cmd = store.wrap_command(TrackWorkerCommand::TrackMint {
        mint,
        pin: Some(TrackPinReason::Wallet),
    });
    assert_eq!(cmd.stream, TrackCommandStream::Wallet);
    assert_eq!(cmd.revision, 1);
    let cmd2 = store.wrap_command(TrackWorkerCommand::TrackMint {
        mint,
        pin: Some(TrackPinReason::Wallet),
    });
    assert_eq!(cmd2.revision, 2);
}

#[test]
fn wallet_track_mint_reject_re_stages_pending() {
    let mut store = BoundedProtocolStore::new(8, 64);
    let mint = unique();
    let cmd = store.wrap_command(TrackWorkerCommand::TrackMint {
        mint,
        pin: Some(TrackPinReason::Wallet),
    });
    assert_eq!(store.stage_on_queue_full(cmd.clone()), StageResult::Staged);
    assert_eq!(store.pending_len(), 1);
    assert!(store.is_applicable(&cmd));
}

#[test]
fn tracker_stream_separate_from_control() {
    let mut store = BoundedProtocolStore::new(8, 64);
    let mint = unique();
    let tracker = store.wrap_command(TrackWorkerCommand::TrackMint { mint, pin: None });
    let control = store.wrap_command(TrackWorkerCommand::ScheduleGeyserPush);
    assert_eq!(tracker.stream, TrackCommandStream::Tracker);
    assert_eq!(control.stream, TrackCommandStream::Control);
    assert_eq!(tracker.revision, 1);
    assert_eq!(control.revision, 1);
}

#[test]
fn sync_duplicates_under_queue_full_coalesce_to_single_pending_intent() {
    let mut store = BoundedProtocolStore::new(8, 64);
    for _ in 0..32 {
        let cmd = store.wrap_command(TrackWorkerCommand::ScheduleGeyserPush);
        assert_eq!(store.stage_on_queue_full(cmd), StageResult::Staged);
    }
    let sync_count = store.pending().iter()
        .filter(|c| {
            matches!(
                c.payload,
                TrackWorkerCommand::ScheduleGeyserPush
                    | TrackWorkerCommand::ScheduleGeyserPushDebounced
                    | TrackWorkerCommand::ScheduleGeyserSyncAfterConfigChange
            )
        })
        .count();
    assert_eq!(
        sync_count, 1,
        "many sync pushes must coalesce to one pending slot"
    );
}

#[test]
fn sync_flood_at_pending_cap_does_not_evict() {
    let cap = 4;
    let mut store = BoundedProtocolStore::new(cap, 64);
    let mints: Vec<Pubkey> = (0..cap).map(|_| unique()).collect();
    for mint in &mints {
        let cmd = store.wrap_command(TrackWorkerCommand::TrackMint {
            mint: *mint,
            pin: None,
        });
        store.stage_on_queue_full(cmd);
    }
    assert_eq!(store.pending_len(), cap);
    for _ in 0..64 {
        let cmd = store.wrap_command(TrackWorkerCommand::ScheduleGeyserPush);
        store.stage_on_queue_full(cmd);
    }
    assert_eq!(
        store.pending_len(),
        cap,
        "sync duplicate flood must not grow pending or evict unique mint demand"
    );
    let sync_count = store.pending().iter()
        .filter(|c| matches!(c.payload, TrackWorkerCommand::ScheduleGeyserPush))
        .count();
    assert_eq!(sync_count, 1);
}

#[test]
fn same_mint_trackmint_latest_wins_in_pending() {
    let mut store = BoundedProtocolStore::new(8, 64);
    let mint = unique();
    let old = store.wrap_command(TrackWorkerCommand::TrackMint { mint, pin: None });
    store.stage_on_queue_full(old.clone());
    let new = store.wrap_command(TrackWorkerCommand::TrackMint { mint, pin: None });
    store.stage_on_queue_full(new.clone());
    let tracker_pending: Vec<_> = store.pending().iter()
        .filter(|c| c.stream == TrackCommandStream::Tracker)
        .collect();
    assert_eq!(tracker_pending.len(), 1);
    assert_eq!(tracker_pending[0].revision, new.revision);
    assert!(
        !store.pending().iter().any(|c| c.revision == old.revision),
        "older same-mint tracker demand must be removed from pending"
    );
    assert!(store.is_applicable(&new));
}

#[test]
fn momentum_newer_revision_supersedes_older_pending() {
    let mut store = BoundedProtocolStore::new(8, 64);
    let old = store.wrap_command(momentum_cmd(1));
    store.stage_on_queue_full(old.clone());
    let new = store.wrap_command(momentum_cmd(2));
    store.stage_on_queue_full(new.clone());
    let momentum_pending: Vec<_> = store.pending().iter()
        .filter(|c| c.stream == TrackCommandStream::Momentum)
        .collect();
    assert_eq!(momentum_pending.len(), 1);
    assert_eq!(momentum_pending[0].revision, new.revision);
    let applicable = store.take_applicable_pending_sorted();
    assert_eq!(applicable.len(), 1);
    assert_eq!(applicable[0].revision, new.revision);
}

#[test]
fn continue_evict_dedupes_pending_to_single_slot() {
    let mut store = BoundedProtocolStore::new(8, 64);
    for _ in 0..16 {
        let cmd = store.wrap_command(TrackWorkerCommand::ContinueGeyserEvict);
        store.stage_on_queue_full(cmd);
    }
    let continue_count = store.pending().iter()
        .filter(|c| matches!(c.payload, TrackWorkerCommand::ContinueGeyserEvict))
        .count();
    assert_eq!(continue_count, 1);
}

#[test]
fn momentum_pending_supersede_merges_incremental_pool_demand() {
    let mut store = BoundedProtocolStore::new(8, 64);
    let a = store.wrap_command(momentum_cmd_with_pool(1, "m1", "pool-p1"));
    store.stage_on_queue_full(a);
    let b = store.wrap_command(momentum_cmd_with_pool(2, "m2", "pool-p2"));
    store.stage_on_queue_full(b);
    let applicable = store.take_applicable_pending_sorted();
    assert_eq!(applicable.len(), 1);
    let TrackWorkerCommand::ApplyMomentumActivePools(merged) = &applicable[0].payload else {
        panic!("expected merged momentum payload");
    };
    let pools: Vec<&str> = merged.active.iter().map(|e| e.pool.as_str()).collect();
    assert!(pools.contains(&"pool-p1"), "P1 demand must survive merge");
    assert!(pools.contains(&"pool-p2"), "P2 demand must be included");
    assert_eq!(merged.active.len(), 2);
}

#[test]
fn arb_pending_supersede_merges_incremental_pool_demand() {
    let mut store = BoundedProtocolStore::new(8, 64);
    let a = store.wrap_command(arb_cmd_with_pool(1, "arb-p1"));
    store.stage_on_queue_full(a);
    let b = store.wrap_command(arb_cmd_with_pool(2, "arb-p2"));
    store.stage_on_queue_full(b);
    let applicable = store.take_applicable_pending_sorted();
    assert_eq!(applicable.len(), 1);
    let TrackWorkerCommand::ApplyArbTrackRequests(merged) = &applicable[0].payload else {
        panic!("expected merged arb payload");
    };
    let pools: Vec<&str> = merged.active.iter().map(|e| e.pool.as_str()).collect();
    assert!(pools.contains(&"arb-p1"));
    assert!(pools.contains(&"arb-p2"));
    assert_eq!(merged.active.len(), 2);
}

#[test]
fn stronger_sync_intent_staged_while_weaker_inflight() {
    let mut store = BoundedProtocolStore::new(8, 64);
    let push = store.wrap_command(TrackWorkerCommand::ScheduleGeyserPush);
    store.note_inflight_enqueued(&push);
    assert!(store.try_dedupe_enqueue(&TrackWorkerCommand::ScheduleGeyserSyncAfterConfigChange));
    assert_eq!(store.pending_len(), 1);
    assert!(matches!(
        store.pending()[0].payload,
        TrackWorkerCommand::ScheduleGeyserSyncAfterConfigChange
    ));
}

#[test]
fn weaker_sync_intent_skipped_while_stronger_inflight() {
    let mut store = BoundedProtocolStore::new(8, 64);
    let config = store.wrap_command(TrackWorkerCommand::ScheduleGeyserSyncAfterConfigChange);
    store.note_inflight_enqueued(&config);
    assert!(store.try_dedupe_enqueue(&TrackWorkerCommand::ScheduleGeyserPush));
    assert_eq!(store.pending_len(), 0);
}

#[test]
fn enqueue_dedupe_skips_when_sync_already_inflight() {
    let mut store = BoundedProtocolStore::new(8, 64);
    let cmd = store.wrap_command(TrackWorkerCommand::ScheduleGeyserPush);
    store.note_inflight_enqueued(&cmd);
    assert!(store.try_dedupe_enqueue(&TrackWorkerCommand::ScheduleGeyserPush));
    assert_eq!(store.pending_len(), 0);
}

#[test]
fn revisions_of_a_place_increase() {
    let mut store = BoundedProtocolStore::default_caps();
    let mint = unique();
    let other = unique();
    let pin = store.wrap_command(TrackWorkerCommand::ApplyWalletPin { mint });
    let elsewhere = store.wrap_command(TrackWorkerCommand::ApplyWalletPin { mint: other });
    let withdraw = store.wrap_command(TrackWorkerCommand::WithdrawWalletPin { mint });
    assert!(pin.revision < withdraw.revision);
    assert_eq!(elsewhere.revision, pin.revision, "each mint counts by itself");
    let push = store.wrap_command(TrackWorkerCommand::ScheduleGeyserPush);
    let again = store.wrap_command(TrackWorkerCommand::ContinueGeyserEvict);
    assert!(push.revision < again.revision);
}

#[test]
fn applied_command_and_older_ones_are_not_applicable() {
    let mut store = BoundedProtocolStore::default_caps();
    let older = store.wrap_command(momentum_cmd(1));
    let newer = store.wrap_command(momentum_cmd(2));
    let elsewhere = store.wrap_command(arb_cmd_with_pool(1, "p"));
    assert!(store.is_applicable(&older) && store.is_applicable(&newer));
    store.mark_applied(&newer);
    assert!(!store.is_applicable(&older) && !store.is_applicable(&newer));
    assert!(store.is_applicable(&elsewhere), "other streams are not moved");
}

#[test]
fn only_the_oldest_makes_room_at_the_cap() {
    let mut store = BoundedProtocolStore::new(2, 2);
    let mints = [unique(), unique(), unique()];
    for mint in mints {
        let cmd = store.wrap_command(TrackWorkerCommand::ApplyWalletPin { mint });
        let _ = store.stage_on_queue_full(cmd);
    }
    let waiting: Vec<TrackWorkerCommand> = store
        .pending()
        .iter()
        .map(|cmd| cmd.payload.clone())
        .collect();
    assert_eq!(
        waiting,
        vec![
            TrackWorkerCommand::ApplyWalletPin { mint: mints[1] },
            TrackWorkerCommand::ApplyWalletPin { mint: mints[2] },
        ]
    );
}

#[test]
fn merged_sync_is_as_strong_as_its_strongest_part() {
    let mut store = BoundedProtocolStore::default_caps();
    for job in [
        TrackWorkerCommand::ScheduleGeyserPushDebounced,
        TrackWorkerCommand::ScheduleGeyserSyncAfterConfigChange,
        TrackWorkerCommand::ScheduleGeyserPush,
    ] {
        let cmd = store.wrap_command(job);
        let _ = store.stage_on_queue_full(cmd);
    }
    assert_eq!(store.pending_len(), 1);
    assert_eq!(
        store.pending()[0].payload,
        TrackWorkerCommand::ScheduleGeyserSyncAfterConfigChange
    );
    assert_eq!(store.pending()[0].revision, 3);
}

#[test]
fn stream_is_applied_up_to_a_revision() {
    let mut store = BoundedProtocolStore::default_caps();
    assert!(!store.is_applicable_stream(TrackCommandStream::Arb, 0));
    assert!(store.is_applicable_stream(TrackCommandStream::Arb, 1));
    store.mark_applied_stream(TrackCommandStream::Arb, 5);
    assert!(!store.is_applicable_stream(TrackCommandStream::Arb, 5));
    assert!(store.is_applicable_stream(TrackCommandStream::Arb, 6));
    store.mark_applied_stream(TrackCommandStream::Arb, 3);
    assert!(
        !store.is_applicable_stream(TrackCommandStream::Arb, 5),
        "what has been applied does not go back"
    );
    assert!(store.is_applicable_stream(TrackCommandStream::Momentum, 1));
}
