use track::geyser_sync::PushRequest;
use track::pending::BoundedProtocolStore;
use track::pubkey::Pubkey;
use track::worker::{
    command_outcome, track_worker_finish_enqueue, track_worker_process_command,
    track_worker_try_enqueue, CommandOutcome, EnqueueStep,
};
use track::worker_commands::{ImmutableTrackCommand, TrackCommandStream, TrackWorkerCommand};
use track::worker_loop::{
    LoopAction, LoopEvent, LoopPhase, TrackWorkerLoop,
    MARKET_DATA_MOMENTUM_HOT_BALANCE_REFRESH_HEARTBEAT_MS, MARKET_DATA_TRACK_WORKER_COALESCE_MS,
    SNAPSHOT_INTERVAL_MS,
};

const START: u64 = 1_000_000;

fn pk(seed: u8) -> Pubkey {
    Pubkey::new_from_array([seed; 32])
}

/// A machine that has begun to wait for commands, with its store.
fn started(now: u64) -> (TrackWorkerLoop, BoundedProtocolStore) {
    let mut machine = TrackWorkerLoop::new(now);
    let mut store = BoundedProtocolStore::default_caps();
    assert_eq!(machine.phase(), LoopPhase::Idle);
    assert_eq!(
        machine.step(&mut store, LoopEvent::Start, now),
        LoopAction::Receive {
            timeout_ms: MARKET_DATA_TRACK_WORKER_COALESCE_MS
        }
    );
    (machine, store)
}

/// Queues a command and takes it out of the queue again.
fn queued(store: &mut BoundedProtocolStore, job: TrackWorkerCommand) -> ImmutableTrackCommand {
    match track_worker_try_enqueue(store, job, false) {
        EnqueueStep::Send(cmd) => {
            assert!(track_worker_finish_enqueue(store, cmd.clone(), true));
            cmd
        }
        other => panic!("not sent: {:?}", other),
    }
}

/// The outcome of the command at hand where each step gives `result`.
fn outcome(machine: &TrackWorkerLoop, result: bool) -> CommandOutcome {
    let cmd = machine.current().expect("a command at hand");
    let steps = track_worker_process_command(&cmd.payload);
    let results = vec![result; steps.len()];
    command_outcome(&cmd.payload, &results)
}

/// Receives a command as the first of a batch and carries it out; the machine then drains.
fn open_batch(
    machine: &mut TrackWorkerLoop,
    store: &mut BoundedProtocolStore,
    job: TrackWorkerCommand,
    before: Vec<Pubkey>,
    result: bool,
    now: u64,
) {
    let cmd = queued(store, job);
    assert_eq!(
        machine.step(store, LoopEvent::Received(cmd), now),
        LoopAction::ReadSubscription
    );
    assert_eq!(
        machine.step(store, LoopEvent::Subscription(before), now),
        LoopAction::Apply
    );
    let applied = LoopEvent::Applied(outcome(machine, result));
    assert_eq!(machine.step(store, applied, now), LoopAction::TryReceive);
}

#[test]
fn batch_is_pushed_at_its_deadline() {
    let (mut machine, mut store) = started(START);
    open_batch(
        &mut machine,
        &mut store,
        TrackWorkerCommand::RetryDeferredHotPoolReserves,
        vec![pk(1), pk(2)],
        true,
        START + 10,
    );
    assert_eq!(store.inflight_len(), 0);
    // The queue is empty; the first refresh of balances is due from the start.
    assert_eq!(
        machine.step(&mut store, LoopEvent::NothingReceived, START + 20),
        LoopAction::RefreshBalances
    );
    assert_eq!(
        machine.step(&mut store, LoopEvent::Done, START + 30),
        LoopAction::Receive { timeout_ms: 480 }
    );
    // One millisecond before the deadline nothing is pushed.
    assert_eq!(
        machine.step(&mut store, LoopEvent::NothingReceived, START + 509),
        LoopAction::Receive { timeout_ms: 1 }
    );
    assert_eq!(
        machine.step(&mut store, LoopEvent::NothingReceived, START + 510),
        LoopAction::Push(PushRequest {
            before_keys: vec![pk(1), pk(2)],
            continue_evict: false,
            release_flush_slot: false,
            restore_barrier_pending: false,
        })
    );
    assert_eq!(machine.phase(), LoopPhase::Pushing);
}

#[test]
fn commands_of_one_batch_share_its_subscription_and_deadline() {
    let (mut machine, mut store) = started(START);
    open_batch(
        &mut machine,
        &mut store,
        TrackWorkerCommand::ContinueGeyserEvict,
        vec![pk(7)],
        false,
        START,
    );
    let debounced = queued(&mut store, TrackWorkerCommand::ScheduleGeyserPushDebounced);
    // A batch is open: the command is carried out at once.
    assert_eq!(
        machine.step(&mut store, LoopEvent::Received(debounced.clone()), START + 100),
        LoopAction::Apply
    );
    assert_eq!(machine.current(), Some(&debounced));
    // The connection waits for the restored subscription.
    let waiting = LoopEvent::Applied(outcome(&machine, true));
    assert_eq!(
        machine.step(&mut store, waiting, START + 100),
        LoopAction::TryReceive
    );
    assert_eq!(machine.current(), None);
    assert_eq!(
        machine.step(&mut store, LoopEvent::NothingReceived, START + 500),
        LoopAction::Push(PushRequest {
            before_keys: vec![pk(7)],
            continue_evict: true,
            release_flush_slot: true,
            restore_barrier_pending: true,
        })
    );
    // The next batch starts with nothing asked for.
    assert_eq!(
        machine.step(
            &mut store,
            LoopEvent::PushEnded { push_ok: false },
            START + 510
        ),
        LoopAction::RequestEvict
    );
    assert_eq!(
        machine.step(&mut store, LoopEvent::Done, START + 510),
        LoopAction::RefreshBalances
    );
    assert_eq!(
        machine.step(&mut store, LoopEvent::Done, START + 510),
        LoopAction::Receive {
            timeout_ms: MARKET_DATA_TRACK_WORKER_COALESCE_MS
        }
    );
    open_batch(
        &mut machine,
        &mut store,
        TrackWorkerCommand::RetryDeferredHotPoolReserves,
        vec![],
        true,
        START + 600,
    );
    assert_eq!(
        machine.step(&mut store, LoopEvent::NothingReceived, START + 1100),
        LoopAction::Push(PushRequest {
            before_keys: vec![],
            continue_evict: false,
            release_flush_slot: false,
            restore_barrier_pending: false,
        })
    );
}

#[test]
fn superseded_command_opens_no_batch() {
    let (mut machine, mut store) = started(START);
    let cmd = queued(&mut store, TrackWorkerCommand::RetryDeferredHotPoolReserves);
    store.mark_applied(&cmd);
    assert_eq!(
        machine.step(&mut store, LoopEvent::Received(cmd), START),
        LoopAction::TryReceive
    );
    assert_eq!(machine.current(), None);
    assert_eq!(
        machine.step(&mut store, LoopEvent::NothingReceived, START + 900),
        LoopAction::RefreshBalances,
        "no batch, so no push"
    );
}

#[test]
fn refused_demand_is_replayed_until_it_succeeds() {
    let (mut machine, mut store) = started(START);
    open_batch(
        &mut machine,
        &mut store,
        TrackWorkerCommand::ApplyWalletPin { mint: pk(3) },
        vec![],
        false,
        START,
    );
    assert_eq!(store.pending_len(), 1);
    // The queue is empty: what waits is taken up, and this time it succeeds.
    assert_eq!(
        machine.step(&mut store, LoopEvent::NothingReceived, START + 1),
        LoopAction::Apply
    );
    assert_eq!(store.pending_len(), 0);
    assert_eq!(
        machine.current().map(|cmd| cmd.stream),
        Some(TrackCommandStream::Wallet)
    );
    let succeeded = LoopEvent::Applied(outcome(&machine, true));
    assert_eq!(
        machine.step(&mut store, succeeded, START + 2),
        LoopAction::RefreshBalances
    );
    assert_eq!(store.pending_len(), 0);
}

#[test]
fn replay_passes_over_what_the_replay_itself_superseded() {
    let (mut machine, mut store) = started(START);
    let mint = pk(5);
    let wallet = store.wrap_command(TrackWorkerCommand::ApplyWalletPin { mint });
    let _ = store.stage_on_queue_full(wallet);
    let tracker = store.wrap_command(TrackWorkerCommand::TrackMint { mint, pin: None });
    let _ = store.stage_on_queue_full(tracker);
    assert_eq!(store.pending_len(), 2);
    // Wallet demand was first and supersedes the tracker demand for the mint.
    assert_eq!(
        machine.step(&mut store, LoopEvent::NothingReceived, START),
        LoopAction::ReadSubscription
    );
    assert_eq!(
        machine.current().map(|cmd| cmd.stream),
        Some(TrackCommandStream::Wallet)
    );
    assert_eq!(
        machine.step(&mut store, LoopEvent::Subscription(vec![]), START),
        LoopAction::Apply
    );
    let succeeded = LoopEvent::Applied(outcome(&machine, true));
    assert_eq!(
        machine.step(&mut store, succeeded, START),
        LoopAction::RefreshBalances,
        "the tracker demand is passed over"
    );
}

#[test]
fn snapshots_and_refreshes_keep_their_distance() {
    let (mut machine, mut store) = started(START);
    let mut now = START;
    let mut snapshots: Vec<u64> = vec![];
    let mut refreshes: Vec<u64> = vec![];
    let mut event = LoopEvent::NothingReceived;
    while now < START + 2 * SNAPSHOT_INTERVAL_MS + 10_000 {
        let action = machine.step(&mut store, event, now);
        event = match action {
            LoopAction::Receive { timeout_ms } => {
                now += timeout_ms.min(450);
                if timeout_ms == MARKET_DATA_TRACK_WORKER_COALESCE_MS {
                    LoopEvent::Received(queued(
                        &mut store,
                        TrackWorkerCommand::RetryDeferredHotPoolReserves,
                    ))
                } else {
                    LoopEvent::NothingReceived
                }
            }
            LoopAction::TryReceive => LoopEvent::NothingReceived,
            LoopAction::ReadSubscription => LoopEvent::Subscription(vec![]),
            LoopAction::Apply => LoopEvent::Applied(outcome(&machine, true)),
            LoopAction::Push(_) => LoopEvent::PushEnded { push_ok: true },
            LoopAction::RequestEvict => panic!("every push succeeds"),
            LoopAction::WriteSnapshot => {
                snapshots.push(now);
                LoopEvent::Done
            }
            LoopAction::RefreshBalances => {
                refreshes.push(now);
                LoopEvent::Done
            }
            LoopAction::Stop => panic!("the queue is open"),
        };
    }
    assert!(snapshots.len() >= 2);
    assert!(refreshes.len() >= 100);
    assert!(snapshots
        .windows(2)
        .all(|pair| pair[1] - pair[0] >= SNAPSHOT_INTERVAL_MS));
    assert!(refreshes
        .windows(2)
        .all(|pair| pair[1] - pair[0]
            >= MARKET_DATA_MOMENTUM_HOT_BALANCE_REFRESH_HEARTBEAT_MS));
}

#[test]
fn young_clock_has_nothing_due_yet() {
    let (mut machine, mut store) = started(100);
    assert_eq!(
        machine.step(&mut store, LoopEvent::NothingReceived, 2099),
        LoopAction::Receive {
            timeout_ms: MARKET_DATA_TRACK_WORKER_COALESCE_MS
        }
    );
    assert_eq!(
        machine.step(&mut store, LoopEvent::NothingReceived, 2100),
        LoopAction::RefreshBalances
    );
}

#[test]
fn closed_queue_stops_the_loop() {
    let (mut machine, mut store) = started(START);
    assert_eq!(
        machine.step(&mut store, LoopEvent::Disconnected, START),
        LoopAction::Stop
    );
    assert_eq!(machine.phase(), LoopPhase::Stopped);
}
