//! The loop of the track worker, as a machine that says what to do next.
//!
//! Commands are taken from the queue as they come, then what waits is replayed. The first
//! command of a batch starts a short delay; when it is over, the batch is pushed to the
//! subscription at once. Times are milliseconds of one clock that never goes back.

use crate::geyser_sync::PushRequest;
use crate::pending;
use crate::pending::{BoundedProtocolStore, StoreView};
use crate::pubkey::Pubkey;
use crate::snapshot::MARKET_DATA_EXPLICIT_SET_SNAPSHOT_INTERVAL_SECS;
use crate::worker;
use crate::worker::{
    track_worker_apply_protocol_command, track_worker_on_dequeue, CommandOutcome,
};
use crate::worker_commands::{ImmutableTrackCommand, Marks, TrackWorkerCommand};
use vstd::prelude::*;

verus! {

/// How long commands are gathered before a push.
pub const MARKET_DATA_TRACK_WORKER_COALESCE_MS: u64 = 500;

/// How often the balances of hot momentum pools are refreshed.
pub const MARKET_DATA_MOMENTUM_HOT_BALANCE_REFRESH_HEARTBEAT_MS: u64 = 2000;

/// How often a snapshot is written, at most.
pub const SNAPSHOT_INTERVAL_MS: u64 = MARKET_DATA_EXPLICIT_SET_SNAPSHOT_INTERVAL_SECS * 1000;

/// What the machine waits for.
#[derive(Debug, Clone, Copy, PartialEq, Eq, Structural)]
pub enum LoopPhase {
    /// To be started.
    Idle,
    /// A command, for as long as the timeout.
    Receiving,
    /// A further command, without waiting.
    Draining,
    /// The subscription as it is before the batch.
    ReadingSubscription,
    /// The outcome of the command at hand.
    Applying,
    /// The end of the push.
    Pushing,
    /// That more eviction has been asked for.
    RequestingEvict,
    /// That the snapshot has been written.
    WritingSnapshot,
    /// That the balances have been refreshed.
    Beating,
    /// Nothing more.
    Stopped,
}

/// What has happened.
#[derive(Debug, Clone, PartialEq, Eq)]
pub enum LoopEvent {
    Start,
    Received(ImmutableTrackCommand),
    NothingReceived,
    Disconnected,
    Subscription(Vec<Pubkey>),
    Applied(CommandOutcome),
    PushEnded { push_ok: bool },
    Done,
}

/// What to do next.
#[derive(Debug, Clone, PartialEq, Eq)]
pub enum LoopAction {
    /// Wait for a command so long.
    Receive { timeout_ms: u64 },
    /// Take a command if one is there.
    TryReceive,
    /// Read the subscription as it is.
    ReadSubscription,
    /// Carry out the command at hand.
    Apply,
    /// Retry what had been put off, then push.
    Push(PushRequest),
    /// Queue a request to go on evicting.
    RequestEvict,
    WriteSnapshot,
    RefreshBalances,
    Stop,
}

/// What to do next, by what it says.
pub enum ActionView {
    Receive { timeout_ms: u64 },
    TryReceive,
    ReadSubscription,
    Apply,
    Push { before: Seq<Pubkey>, continue_evict: bool, release_slot: bool, barrier: bool },
    RequestEvict,
    WriteSnapshot,
    RefreshBalances,
    Stop,
}

impl View for LoopAction {
    type V = ActionView;

    open spec fn view(&self) -> ActionView {
        match *self {
            LoopAction::Receive { timeout_ms } => ActionView::Receive { timeout_ms },
            LoopAction::TryReceive => ActionView::TryReceive,
            LoopAction::ReadSubscription => ActionView::ReadSubscription,
            LoopAction::Apply => ActionView::Apply,
            LoopAction::Push(request) => ActionView::Push {
                before: request.before_keys@,
                continue_evict: request.continue_evict,
                release_slot: request.release_flush_slot,
                barrier: request.restore_barrier_pending,
            },
            LoopAction::RequestEvict => ActionView::RequestEvict,
            LoopAction::WriteSnapshot => ActionView::WriteSnapshot,
            LoopAction::RefreshBalances => ActionView::RefreshBalances,
            LoopAction::Stop => ActionView::Stop,
        }
    }
}

/// The batch that is being gathered.
#[verifier::ext_equal]
pub struct Batch {
    /// When it is pushed.
    pub deadline: u64,
    /// The subscription before it.
    pub before: Seq<Pubkey>,
}

/// The state of the machine.
#[verifier::ext_equal]
pub struct LoopView {
    pub phase: LoopPhase,
    /// The command at hand.
    pub current: Option<ImmutableTrackCommand>,
    /// What is still to be replayed, in order.
    pub replay: Seq<ImmutableTrackCommand>,
    pub replaying: bool,
    pub batch: Option<Batch>,
    pub continue_evict: bool,
    pub release_slot: bool,
    pub barrier: bool,
    pub last_snapshot: u64,
    pub last_beat: u64,
}

/// How long since `then`.
pub open spec fn since(now: u64, then: u64) -> int {
    if now > then {
        now - then
    } else {
        0
    }
}

/// `ms` after `now`, as far as the clock goes.
pub open spec fn after(now: u64, ms: u64) -> u64 {
    if now + ms <= u64::MAX {
        (now + ms) as u64
    } else {
        u64::MAX
    }
}

/// `ms` before `now` or, before the clock began, `now`.
pub open spec fn before(now: u64, ms: u64) -> u64 {
    if ms <= now {
        (now - ms) as u64
    } else {
        now
    }
}

impl LoopView {
    /// The machine before it is started: a snapshot and a refresh are due.
    pub open spec fn initial(now: u64) -> LoopView {
        LoopView {
            phase: LoopPhase::Idle,
            current: None,
            replay: Seq::empty(),
            replaying: false,
            batch: None,
            continue_evict: false,
            release_slot: false,
            barrier: false,
            last_snapshot: before(now, SNAPSHOT_INTERVAL_MS),
            last_beat: before(now, MARKET_DATA_MOMENTUM_HOT_BALANCE_REFRESH_HEARTBEAT_MS),
        }
    }

    /// Wait for a command until the batch is due.
    pub open spec fn receive(self, now: u64) -> (LoopView, ActionView) {
        let timeout_ms = match self.batch {
            Some(batch) => since(batch.deadline, now) as u64,
            None => MARKET_DATA_TRACK_WORKER_COALESCE_MS,
        };
        (LoopView { phase: LoopPhase::Receiving, ..self }, ActionView::Receive { timeout_ms })
    }

    /// Refresh the balances if it is time, then wait for a command.
    pub open spec fn beat(self, now: u64) -> (LoopView, ActionView) {
        if since(now, self.last_beat)
            >= MARKET_DATA_MOMENTUM_HOT_BALANCE_REFRESH_HEARTBEAT_MS {
            (
                LoopView { phase: LoopPhase::Beating, last_beat: now, ..self },
                ActionView::RefreshBalances,
            )
        } else {
            self.receive(now)
        }
    }

    /// Push the batch if it is due.
    pub open spec fn settle(self, now: u64) -> (LoopView, ActionView) {
        match self.batch {
            Some(batch) => if now >= batch.deadline {
                (
                    LoopView {
                        phase: LoopPhase::Pushing,
                        batch: None,
                        continue_evict: false,
                        release_slot: false,
                        barrier: false,
                        ..self
                    },
                    ActionView::Push {
                        before: batch.before,
                        continue_evict: self.continue_evict,
                        release_slot: self.release_slot,
                        barrier: self.barrier,
                    },
                )
            } else {
                self.beat(now)
            },
            None => self.beat(now),
        }
    }

    /// Take note of what the command asks of the push, and carry it out.
    pub open spec fn carry_out(self, cmd: ImmutableTrackCommand) -> (LoopView, ActionView) {
        (
            LoopView {
                phase: LoopPhase::Applying,
                current: Some(cmd),
                continue_evict: self.continue_evict || cmd.payload is ContinueGeyserEvict,
                release_slot: self.release_slot || cmd.payload is ScheduleGeyserPushDebounced,
                ..self
            },
            ActionView::Apply,
        )
    }

    /// Begin a batch if there is none, else carry out the command.
    pub open spec fn take_up(self, cmd: ImmutableTrackCommand) -> (LoopView, ActionView) {
        if self.batch is None {
            (
                LoopView {
                    phase: LoopPhase::ReadingSubscription,
                    current: Some(cmd),
                    ..self
                },
                ActionView::ReadSubscription,
            )
        } else {
            self.carry_out(cmd)
        }
    }

    /// Look for a further command in the queue.
    pub open spec fn drain(self) -> (LoopView, ActionView) {
        (LoopView { phase: LoopPhase::Draining, ..self }, ActionView::TryReceive)
    }

    /// Go on with the replay: the next command that is still applicable, else the push.
    pub open spec fn replay_on(self, applied: Marks, now: u64) -> (LoopView, ActionView) {
        let rest = skip_stale(self.replay, applied);
        if rest.len() == 0 {
            (LoopView { replay: rest, replaying: false, ..self }).settle(now)
        } else {
            (LoopView { replay: rest.drop_first(), ..self }).take_up(rest[0])
        }
    }

    /// Go on after a command.
    pub open spec fn go_on(self, applied: Marks, now: u64) -> (LoopView, ActionView) {
        if self.replaying {
            self.replay_on(applied, now)
        } else {
            self.drain()
        }
    }
}

/// The commands from the first that is still applicable on.
pub open spec fn skip_stale(s: Seq<ImmutableTrackCommand>, applied: Marks) -> Seq<
    ImmutableTrackCommand,
>
    decreases s.len(),
{
    if s.len() == 0 || pending::applicable(applied, s[0]) {
        s
    } else {
        skip_stale(s.drop_first(), applied)
    }
}

/// The events that a phase waits for.
pub open spec fn expects(phase: LoopPhase, event: LoopEvent) -> bool {
    match phase {
        LoopPhase::Idle => event is Start,
        LoopPhase::Receiving => event is Received || event is NothingReceived
            || event is Disconnected,
        LoopPhase::Draining => event is Received || event is NothingReceived,
        LoopPhase::ReadingSubscription => event is Subscription,
        LoopPhase::Applying => event is Applied,
        LoopPhase::Pushing => event is PushEnded,
        LoopPhase::RequestingEvict => event is Done,
        LoopPhase::WritingSnapshot => event is Done,
        LoopPhase::Beating => event is Done,
        LoopPhase::Stopped => false,
    }
}

/// The store after an event: a received command has left the queue; without one, all that
/// waits is taken for replay; a command that has been carried out is handled.
pub open spec fn store_stepped(
    l: LoopView,
    store: StoreView,
    event: LoopEvent,
    store_after: StoreView,
) -> bool {
    match event {
        LoopEvent::Received(cmd) => store_after == store.dequeued(cmd.payload).ended(),
        LoopEvent::NothingReceived => store_after == (StoreView {
            pending: Seq::empty(),
            ..store
        }),
        LoopEvent::Applied(outcome) => worker::is_handled(
            store,
            l.current->0,
            outcome.succeeded,
            store_after,
        ),
        _ => store_after == store,
    }
}

/// The machine after an event, and what it asks for, given how far the streams have been
/// applied after the event.
pub open spec fn stepped(
    l: LoopView,
    store: StoreView,
    applied: Marks,
    event: LoopEvent,
    now: u64,
) -> (LoopView, ActionView) {
    match event {
        LoopEvent::Start => l.receive(now),
        LoopEvent::Received(cmd) => if pending::applicable(applied, cmd) {
            l.take_up(cmd)
        } else {
            l.drain()
        },
        LoopEvent::NothingReceived => (LoopView {
            replay: pending::replayed(store.pending, store.applied),
            replaying: true,
            ..l
        }).replay_on(applied, now),
        LoopEvent::Disconnected => (
            LoopView { phase: LoopPhase::Stopped, ..l },
            ActionView::Stop,
        ),
        LoopEvent::Subscription(keys) => (LoopView {
            batch: Some(
                Batch {
                    deadline: after(now, MARKET_DATA_TRACK_WORKER_COALESCE_MS),
                    before: keys@,
                },
            ),
            ..l
        }).carry_out(l.current->0),
        LoopEvent::Applied(outcome) => (LoopView {
            current: None,
            barrier: l.barrier || outcome.restore_barrier_pending,
            ..l
        }).go_on(applied, now),
        LoopEvent::PushEnded { push_ok } => if !push_ok {
            (LoopView { phase: LoopPhase::RequestingEvict, ..l }, ActionView::RequestEvict)
        } else if since(now, l.last_snapshot) >= SNAPSHOT_INTERVAL_MS {
            (
                LoopView { phase: LoopPhase::WritingSnapshot, last_snapshot: now, ..l },
                ActionView::WriteSnapshot,
            )
        } else {
            l.beat(now)
        },
        LoopEvent::Done => if l.phase is Beating {
            l.receive(now)
        } else {
            l.beat(now)
        },
    }
}

/// The loop of the track worker.
#[derive(Debug)]
pub struct TrackWorkerLoop {
    phase: LoopPhase,
    current: Option<ImmutableTrackCommand>,
    replay: Vec<ImmutableTrackCommand>,
    replaying: bool,
    coalesce_deadline: Option<u64>,
    push_before_keys: Option<Vec<Pubkey>>,
    pending_continue_evict: bool,
    pending_release_flush_slot: bool,
    restore_barrier_pending: bool,
    last_snapshot_write_ms: u64,
    last_heartbeat_ms: u64,
}

impl View for TrackWorkerLoop {
    type V = LoopView;

    closed spec fn view(&self) -> LoopView {
        LoopView {
            phase: self.phase,
            current: self.current,
            replay: self.replay@,
            replaying: self.replaying,
            batch: match (self.coalesce_deadline, self.push_before_keys) {
                (Some(deadline), Some(before)) => Some(Batch { deadline, before: before@ }),
                _ => None,
            },
            continue_evict: self.pending_continue_evict,
            release_slot: self.pending_release_flush_slot,
            barrier: self.restore_barrier_pending,
            last_snapshot: self.last_snapshot_write_ms,
            last_beat: self.last_heartbeat_ms,
        }
    }
}

impl TrackWorkerLoop {
    /// A batch has both a deadline and the subscription before it; a command is at hand just
    /// where one is being taken up or carried out, and in the second case there is a batch;
    /// commands are ones that their streams carry.
    pub closed spec fn wf(&self) -> bool {
        &&& self.coalesce_deadline is Some <==> self.push_before_keys is Some
        &&& self.current is Some <==> (self.phase is ReadingSubscription || self.phase is Applying)
        &&& self.phase is Applying ==> self.coalesce_deadline is Some
        &&& self.current is Some ==> self.current->0.fits()
        &&& forall|i: int| 0 <= i < self.replay@.len() ==> (#[trigger] self.replay@[i]).fits()
    }

    /// A command is only carried out within a batch, so that a push follows it.
    pub proof fn commands_are_carried_out_within_a_batch(&self)
        requires
            self.wf(),
        ensures
            self@.phase is Applying ==> self@.batch is Some && self@.current is Some,
    {
    }

    /// A machine to be started.
    pub fn new(now_ms: u64) -> (r: Self)
        ensures
            r.wf(),
            r@ == LoopView::initial(now_ms),
    {
        TrackWorkerLoop {
            phase: LoopPhase::Idle,
            current: None,
            replay: Vec::new(),
            replaying: false,
            coalesce_deadline: None,
            push_before_keys: None,
            pending_continue_evict: false,
            pending_release_flush_slot: false,
            restore_barrier_pending: false,
            last_snapshot_write_ms: match now_ms.checked_sub(SNAPSHOT_INTERVAL_MS) {
                Some(t) => t,
                None => now_ms,
            },
            last_heartbeat_ms: match now_ms.checked_sub(
                MARKET_DATA_MOMENTUM_HOT_BALANCE_REFRESH_HEARTBEAT_MS,
            ) {
                Some(t) => t,
                None => now_ms,
            },
        }
    }

    /// The command at hand.
    pub fn current(&self) -> (r: Option<&ImmutableTrackCommand>)
        ensures
            match r {
                Some(cmd) => self@.current == Some(*cmd),
                None => self@.current is None,
            },
    {
        match &self.current {
            Some(cmd) => Some(cmd),
            None => None,
        }
    }

    /// What the machine waits for.
    pub fn phase(&self) -> (r: LoopPhase)
        ensures
            r == self@.phase,
    {
        self.phase
    }

    fn receive(&mut self, now_ms: u64) -> (action: LoopAction)
        requires
            old(self).wf(),
            old(self)@.current is None,
        ensures
            final(self).wf(),
            (final(self)@, action@) == old(self)@.receive(now_ms),
    {
        let timeout_ms = match self.coalesce_deadline {
            Some(deadline) => deadline.saturating_sub(now_ms),
            None => MARKET_DATA_TRACK_WORKER_COALESCE_MS,
        };
        self.phase = LoopPhase::Receiving;
        LoopAction::Receive { timeout_ms }
    }

    fn beat(&mut self, now_ms: u64) -> (action: LoopAction)
        requires
            old(self).wf(),
            old(self)@.current is None,
        ensures
            final(self).wf(),
            (final(self)@, action@) == old(self)@.beat(now_ms),
    {
        if now_ms.saturating_sub(self.last_heartbeat_ms)
            >= MARKET_DATA_MOMENTUM_HOT_BALANCE_REFRESH_HEARTBEAT_MS {
            self.last_heartbeat_ms = now_ms;
            self.phase = LoopPhase::Beating;
            LoopAction::RefreshBalances
        } else {
            self.receive(now_ms)
        }
    }

    fn settle(&mut self, now_ms: u64) -> (action: LoopAction)
        requires
            old(self).wf(),
            old(self)@.current is None,
        ensures
            final(self).wf(),
            (final(self)@, action@) == old(self)@.settle(now_ms),
    {
        let due = match self.coalesce_deadline {
            Some(deadline) => now_ms >= deadline,
            None => false,
        };
        if !due {
            return self.beat(now_ms);
        }
        let before_keys = self.push_before_keys.take().unwrap();
        let request = PushRequest {
            before_keys,
            continue_evict: self.pending_continue_evict,
            release_flush_slot: self.pending_release_flush_slot,
            restore_barrier_pending: self.restore_barrier_pending,
        };
        self.pending_continue_evict = false;
        self.pending_release_flush_slot = false;
        self.restore_barrier_pending = false;
        self.coalesce_deadline = None;
        self.phase = LoopPhase::Pushing;
        LoopAction::Push(request)
    }

    fn carry_out(&mut self, cmd: ImmutableTrackCommand) -> (action: LoopAction)
        requires
            old(self).coalesce_deadline is Some <==> old(self).push_before_keys is Some,
            old(self).coalesce_deadline is Some,
            forall|i: int|
                0 <= i < old(self).replay@.len() ==> (#[trigger] old(self).replay@[i]).fits(),
            cmd.fits(),
        ensures
            final(self).wf(),
            (final(self)@, action@) == old(self)@.carry_out(cmd),
    {
        match &cmd.payload {
            TrackWorkerCommand::ContinueGeyserEvict => {
                self.pending_continue_evict = true;
            },
            TrackWorkerCommand::ScheduleGeyserPushDebounced => {
                self.pending_release_flush_slot = true;
            },
            _ => {},
        }
        self.current = Some(cmd);
        self.phase = LoopPhase::Applying;
        LoopAction::Apply
    }

    fn take_up(&mut self, cmd: ImmutableTrackCommand) -> (action: LoopAction)
        requires
            old(self).wf(),
            old(self)@.current is None,
            cmd.fits(),
        ensures
            final(self).wf(),
            (final(self)@, action@) == old(self)@.take_up(cmd),
    {
        if self.coalesce_deadline.is_none() {
            self.current = Some(cmd);
            self.phase = LoopPhase::ReadingSubscription;
            LoopAction::ReadSubscription
        } else {
            self.carry_out(cmd)
        }
    }

    fn drain(&mut self) -> (action: LoopAction)
        requires
            old(self).wf(),
            old(self)@.current is None,
        ensures
            final(self).wf(),
            (final(self)@, action@) == old(self)@.drain(),
    {
        self.phase = LoopPhase::Draining;
        LoopAction::TryReceive
    }

    fn replay_on(&mut self, store: &BoundedProtocolStore, now_ms: u64) -> (action: LoopAction)
        requires
            old(self).wf(),
            old(self)@.current is None,
            store.wf(),
        ensures
            final(self).wf(),
            (final(self)@, action@) == old(self)@.replay_on(store@.applied, now_ms),
    {
        while self.replay.len() > 0
            invariant
                self.wf(),
                self@.current is None,
                store.wf(),
                self@ == (LoopView { replay: self@.replay, ..old(self)@ }),
                skip_stale(self@.replay, store@.applied) == skip_stale(
                    old(self)@.replay,
                    store@.applied,
                ),
            decreases self.replay@.len(),
        {
            let ghost rest = self.replay@;
            let cmd = self.replay.remove(0);
            proof {
                assert(self.replay@ =~= rest.drop_first());
                assert(cmd == rest[0]);
                assert forall|i: int| 0 <= i < self.replay@.len() implies (
                #[trigger] self.replay@[i]).fits() by {
                    assert(self.replay@[i] == rest[i + 1]);
                }
            }
            if store.is_applicable(&cmd) {
                return self.take_up(cmd);
            }
        }
        self.replaying = false;
        self.settle(now_ms)
    }

    /// Takes note of an event at time `now_ms` and says what to do next.
    pub fn step(
        &mut self,
        store: &mut BoundedProtocolStore,
        event: LoopEvent,
        now_ms: u64,
    ) -> (action: LoopAction)
        requires
            old(self).wf(),
            old(store).wf(),
            expects(old(self)@.phase, event),
            event matches LoopEvent::Received(cmd) ==> cmd.fits(),
        ensures
            final(self).wf(),
            final(store).wf(),
            store_stepped(old(self)@, old(store)@, event, final(store)@),
            (final(self)@, action@) == stepped(
                old(self)@,
                old(store)@,
                final(store)@.applied,
                event,
                now_ms,
            ),
    {
        match event {
            LoopEvent::Start => self.receive(now_ms),
            LoopEvent::Received(cmd) => {
                track_worker_on_dequeue(store, &cmd);
                if store.is_applicable(&cmd) {
                    self.take_up(cmd)
                } else {
                    self.drain()
                }
            },
            LoopEvent::NothingReceived => {
                proof {
                    store.store_keeps_to_its_bounds();
                    pending::replay_is_complete_and_in_order(store@.pending, store@.applied);
                }
                let ghost waiting = store@.pending;
                let ghost applied = store@.applied;
                self.replay = store.take_applicable_pending_sorted();
                self.replaying = true;
                proof {
                    assert forall|i: int| 0 <= i < self.replay@.len() implies (
                    #[trigger] self.replay@[i]).fits() by {
                        assert(pending::replayed(waiting, applied).contains(self.replay@[i]));
                        assert(waiting.contains(self.replay@[i]));
                    }
                }
                self.replay_on(store, now_ms)
            },
            LoopEvent::Disconnected => {
                self.phase = LoopPhase::Stopped;
                LoopAction::Stop
            },
            LoopEvent::Subscription(keys) => {
                let cmd = self.current.take().unwrap();
                self.push_before_keys = Some(keys);
                self.coalesce_deadline = Some(
                    now_ms.saturating_add(MARKET_DATA_TRACK_WORKER_COALESCE_MS),
                );
                self.carry_out(cmd)
            },
            LoopEvent::Applied(outcome) => {
                let cmd = self.current.take().unwrap();
                if outcome.restore_barrier_pending {
                    self.restore_barrier_pending = true;
                }
                track_worker_apply_protocol_command(store, cmd, outcome.succeeded);
                self.phase = LoopPhase::Draining;
                if self.replaying {
                    self.replay_on(store, now_ms)
                } else {
                    self.drain()
                }
            },
            LoopEvent::PushEnded { push_ok } => {
                if !push_ok {
                    self.phase = LoopPhase::RequestingEvict;
                    LoopAction::RequestEvict
                } else if now_ms.saturating_sub(self.last_snapshot_write_ms)
                    >= SNAPSHOT_INTERVAL_MS {
                    self.last_snapshot_write_ms = now_ms;
                    self.phase = LoopPhase::WritingSnapshot;
                    LoopAction::WriteSnapshot
                } else {
                    self.beat(now_ms)
                }
            },
            LoopEvent::Done => {
                if self.phase == LoopPhase::Beating {
                    self.receive(now_ms)
                } else {
                    self.beat(now_ms)
                }
            },
        }
    }
}

/// A push is of the batch that was gathered, no sooner than its deadline, and ends the batch.
pub proof fn pushes_wait_for_their_batch(
    l: LoopView,
    store: StoreView,
    applied: Marks,
    event: LoopEvent,
    now: u64,
)
    requires
        expects(l.phase, event),
        stepped(l, store, applied, event, now).1 is Push,
    ensures
        l.batch matches Some(batch) && batch.deadline <= now && stepped(
            l,
            store,
            applied,
            event,
            now,
        ).1->before == batch.before,
        stepped(l, store, applied, event, now).0.batch is None,
{
}

/// Balances are refreshed at most once in each interval.
pub proof fn refreshes_keep_their_distance(
    l: LoopView,
    store: StoreView,
    applied: Marks,
    event: LoopEvent,
    now: u64,
)
    requires
        expects(l.phase, event),
    ensures
        ({
            let (next, action) = stepped(l, store, applied, event, now);
            if action is RefreshBalances {
                &&& since(now, l.last_beat)
                    >= MARKET_DATA_MOMENTUM_HOT_BALANCE_REFRESH_HEARTBEAT_MS
                &&& next.last_beat == now
            } else {
                next.last_beat == l.last_beat
            }
        }),
{
}

/// Snapshots are written only after a push that succeeded, and at most once in each interval.
pub proof fn snapshots_follow_a_push(
    l: LoopView,
    store: StoreView,
    applied: Marks,
    event: LoopEvent,
    now: u64,
)
    requires
        expects(l.phase, event),
    ensures
        ({
            let (next, action) = stepped(l, store, applied, event, now);
            if action is WriteSnapshot {
                &&& event matches LoopEvent::PushEnded { push_ok } && push_ok
                &&& since(now, l.last_snapshot) >= SNAPSHOT_INTERVAL_MS
                &&& next.last_snapshot == now
            } else {
                next.last_snapshot == l.last_snapshot
            }
        }),
{
}

/// What a batch has been asked for is kept until its push, which passes it on.
pub proof fn requests_reach_the_push(
    l: LoopView,
    store: StoreView,
    applied: Marks,
    event: LoopEvent,
    now: u64,
)
    requires
        expects(l.phase, event),
    ensures
        ({
            let (next, action) = stepped(l, store, applied, event, now);
            match action {
                ActionView::Push { continue_evict, release_slot, barrier, .. } => {
                    &&& l.continue_evict ==> continue_evict
                    &&& l.release_slot ==> release_slot
                    &&& l.barrier ==> barrier
                    &&& event matches LoopEvent::Applied(outcome) ==> (
                    outcome.restore_barrier_pending ==> barrier)
                },
                _ => {
                    &&& l.continue_evict ==> next.continue_evict
                    &&& l.release_slot ==> next.release_slot
                    &&& l.barrier ==> next.barrier
                    &&& event matches LoopEvent::Applied(outcome) ==> (
                    outcome.restore_barrier_pending ==> next.barrier)
                },
            }
        }),
{
}

proof fn lemma_skipped_to_applicable(s: Seq<ImmutableTrackCommand>, applied: Marks)
    ensures
        skip_stale(s, applied).len() > 0 ==> pending::applicable(
            applied,
            skip_stale(s, applied)[0],
        ),
    decreases s.len(),
{
    if s.len() > 0 {
        lemma_skipped_to_applicable(s.drop_first(), applied);
    }
}

/// A command is taken up only while it is applicable, received or replayed alike.
pub proof fn stale_commands_are_not_taken_up(
    l: LoopView,
    store: StoreView,
    applied: Marks,
    event: LoopEvent,
    now: u64,
)
    requires
        expects(l.phase, event),
        !(event is Subscription),
        stepped(l, store, applied, event, now).1 is Apply || stepped(
            l,
            store,
            applied,
            event,
            now,
        ).1 is ReadSubscription,
    ensures
        stepped(l, store, applied, event, now).0.current matches Some(cmd) && pending::applicable(
            applied,
            cmd,
        ),
{
    lemma_skipped_to_applicable(l.replay, applied);
    lemma_skipped_to_applicable(pending::replayed(store.pending, store.applied), applied);
}

/// A push that failed is followed by a request to go on evicting.
pub proof fn failed_push_asks_for_more(
    l: LoopView,
    store: StoreView,
    applied: Marks,
    now: u64,
)
    ensures
        stepped(
            l,
            store,
            applied,
            LoopEvent::PushEnded { push_ok: false },
            now,
        ).1 is RequestEvict,
{
}

/// An applicable command that was received is taken up: within a batch it is carried out, else
/// the subscription is read first. One that is not applicable is passed over for the next.
pub proof fn received_command_is_taken_up(
    l: LoopView,
    store: StoreView,
    applied: Marks,
    cmd: ImmutableTrackCommand,
    now: u64,
)
    ensures
        ({
            let (to, action) = stepped(l, store, applied, LoopEvent::Received(cmd), now);
            &&& pending::applicable(applied, cmd) ==> to.current == Some(cmd)
            &&& pending::applicable(applied, cmd) && l.batch is None ==> action is ReadSubscription
                && to.phase is ReadingSubscription
            &&& pending::applicable(applied, cmd) && l.batch is Some ==> action is Apply
                && to.phase is Applying
            &&& !pending::applicable(applied, cmd) ==> action is TryReceive && to.phase is Draining
            &&& to.replay == l.replay
            &&& to.batch == l.batch
        }),
{
}

/// A batch begins with the subscription as it was read, and is due once the delay is over; the
/// command at hand is then carried out.
pub proof fn batch_begins_with_the_subscription(
    l: LoopView,
    store: StoreView,
    applied: Marks,
    keys: Vec<Pubkey>,
    now: u64,
)
    requires
        l.current is Some,
    ensures
        ({
            let (to, action) = stepped(l, store, applied, LoopEvent::Subscription(keys), now);
            &&& action is Apply
            &&& to.current == l.current
            &&& to.batch is Some
            &&& to.batch->0.before == keys@
            &&& now + MARKET_DATA_TRACK_WORKER_COALESCE_MS <= u64::MAX ==> to.batch->0.deadline
                == now + MARKET_DATA_TRACK_WORKER_COALESCE_MS
            &&& to.continue_evict <==> l.continue_evict
                || l.current->0.payload is ContinueGeyserEvict
            &&& to.release_slot <==> l.release_slot
                || l.current->0.payload is ScheduleGeyserPushDebounced
        }),
{
}

/// With the queue empty and nothing applicable waiting, a batch that is due is pushed with all
/// that was asked of it; else balances are refreshed if it is time; else a command is awaited,
/// no longer than until the batch is due.
pub proof fn due_batch_is_pushed(l: LoopView, store: StoreView, now: u64)
    requires
        forall|i: int|
            0 <= i < store.pending.len() ==> !pending::applicable(
                store.applied,
                #[trigger] store.pending[i],
            ),
    ensures
        ({
            let (to, action) = stepped(l, store, store.applied, LoopEvent::NothingReceived, now);
            let due = l.batch is Some && now >= l.batch->0.deadline;
            let beats = now >= l.last_beat + MARKET_DATA_MOMENTUM_HOT_BALANCE_REFRESH_HEARTBEAT_MS;
            &&& !to.replaying
            &&& due ==> {
                &&& action == ActionView::Push {
                    before: l.batch->0.before,
                    continue_evict: l.continue_evict,
                    release_slot: l.release_slot,
                    barrier: l.barrier,
                }
                &&& to.batch is None
                &&& !to.continue_evict
                &&& !to.release_slot
                &&& !to.barrier
            }
            &&& !due ==> to.batch == l.batch
            &&& !due && beats ==> action is RefreshBalances && to.last_beat == now
            &&& !due && !beats ==> action == ActionView::Receive {
                timeout_ms: if l.batch is Some {
                    (l.batch->0.deadline - now) as u64
                } else {
                    MARKET_DATA_TRACK_WORKER_COALESCE_MS
                },
            }
        }),
{
    let replay = pending::replayed(store.pending, store.applied);
    pending::replay_is_complete_and_in_order(store.pending, store.applied);
    if replay.len() > 0 {
        assert(replay.contains(replay[0]));
        let i = choose|i: int| 0 <= i < store.pending.len() && store.pending[i] == replay[0];
        assert(!pending::applicable(store.applied, store.pending[i]));
    }
}

/// With the queue empty, a command that waits and is applicable is taken up, and the others that
/// are applicable are still to come.
pub proof fn waiting_commands_are_replayed(l: LoopView, store: StoreView, now: u64, i: int)
    requires
        0 <= i < store.pending.len(),
        pending::applicable(store.applied, store.pending[i]),
    ensures
        ({
            let (to, action) = stepped(l, store, store.applied, LoopEvent::NothingReceived, now);
            &&& to.replaying
            &&& to.current is Some
            &&& store.pending.contains(to.current->0)
            &&& pending::applicable(store.applied, to.current->0)
            &&& action is ReadSubscription <==> l.batch is None
            &&& action is Apply <==> l.batch is Some
            &&& to.current == Some(store.pending[i]) || to.replay.contains(store.pending[i])
        }),
{
    let replay = pending::replayed(store.pending, store.applied);
    pending::replay_is_complete_and_in_order(store.pending, store.applied);
    assert(store.pending.contains(store.pending[i]));
    assert(replay.contains(store.pending[i]));
    let j = choose|j: int| 0 <= j < replay.len() && replay[j] == store.pending[i];
    assert(replay.contains(replay[0]));
    assert(pending::applicable(store.applied, replay[0]));
    if j > 0 {
        assert(replay.drop_first()[j - 1] == store.pending[i]);
    }
}

/// After a command, a replay goes on with the next of its commands that is applicable; without a
/// replay the queue is looked at again. What the command asked of the barrier is kept.
pub proof fn loop_goes_on_after_a_command(
    l: LoopView,
    store: StoreView,
    applied: Marks,
    outcome: CommandOutcome,
    now: u64,
)
    ensures
        ({
            let (to, action) = stepped(l, store, applied, LoopEvent::Applied(outcome), now);
            &&& !l.replaying ==> {
                &&& action is TryReceive
                &&& to.current is None
                &&& to.barrier <==> l.barrier || outcome.restore_barrier_pending
                &&& to.batch == l.batch
            }
            &&& l.replaying && l.replay.len() > 0 && pending::applicable(applied, l.replay[0])
                ==> {
                &&& to.current == Some(l.replay[0])
                &&& to.replay == l.replay.drop_first()
                &&& to.barrier <==> l.barrier || outcome.restore_barrier_pending
                &&& action is Apply || action is ReadSubscription
            }
            &&& l.replaying && l.replay.len() > 0 && !pending::applicable(applied, l.replay[0])
                ==> (to, action) == stepped(
                LoopView { replay: l.replay.drop_first(), ..l },
                store,
                applied,
                LoopEvent::Applied(outcome),
                now,
            )
        }),
{
}

/// After a push that succeeded, a snapshot is written if the interval since the last is over;
/// else balances are refreshed if it is time; else a command is awaited.
pub proof fn snapshot_is_written_when_due(
    l: LoopView,
    store: StoreView,
    applied: Marks,
    now: u64,
)
    ensures
        ({
            let (to, action) = stepped(
                l,
                store,
                applied,
                LoopEvent::PushEnded { push_ok: true },
                now,
            );
            let due = now >= l.last_snapshot + SNAPSHOT_INTERVAL_MS;
            let beats = now >= l.last_beat + MARKET_DATA_MOMENTUM_HOT_BALANCE_REFRESH_HEARTBEAT_MS;
            &&& due ==> action is WriteSnapshot && to.last_snapshot == now
            &&& !due ==> to.last_snapshot == l.last_snapshot
            &&& !due && beats ==> action is RefreshBalances && to.last_beat == now
            &&& !due && !beats ==> action is Receive
        }),
{
}

/// The loop stops once nobody can send commands any more, and not before.
pub proof fn loop_stops_when_disconnected(
    l: LoopView,
    store: StoreView,
    applied: Marks,
    event: LoopEvent,
    now: u64,
)
    ensures
        stepped(l, store, applied, event, now).1 is Stop <==> event is Disconnected,
{
}

} // verus!
