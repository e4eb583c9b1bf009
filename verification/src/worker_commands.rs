//! Commands of the track worker, the streams they belong to, and their revisions.

use crate::nats::{ArbTrackRequestsUpdate, MomentumActivePoolsUpdate};
use crate::ordered::OrderedMap;
use crate::pubkey::Pubkey;
use crate::snapshot::ExplicitSetSnapshot;
use vstd::prelude::*;

verus! {

/// Why a mint is to be tracked.
#[derive(Debug, Clone, Copy, PartialEq, Eq, Structural)]
pub enum TrackPinReason {
    Wallet,
    MomentumActive,
    ArbMultiDex,
}

/// What the track worker is asked to do.
#[derive(Debug, Clone, PartialEq, Eq)]
pub enum TrackWorkerCommand {
    ApplyMomentumActivePools(MomentumActivePoolsUpdate),
    ApplyArbTrackRequests(ArbTrackRequestsUpdate),
    ApplyWalletPin { mint: Pubkey },
    WithdrawWalletPin { mint: Pubkey },
    TrackMint { mint: Pubkey, pin: Option<TrackPinReason> },
    TrackMints { entries: Vec<(Pubkey, Option<TrackPinReason>)> },
    ScheduleGeyserSyncAfterConfigChange,
    RestoreExplicitSnapshot(ExplicitSetSnapshot),
    ScheduleGeyserPush,
    ScheduleGeyserPushDebounced,
    ContinueGeyserEvict,
    ShedTrackerUnderExecHotPressure { max_groups: usize },
    ShedMomentumUnderExecHotPressure { max_groups: usize },
    ShedArbUnderExecHotPressure { max_groups: usize },
    /// Write a snapshot now and tell whoever waits under the ticket.
    FlushExplicitSetSnapshot { ticket: u64 },
    RetryDeferredHotPoolReserves,
}

/// A sequence of commands with revisions of its own.
#[derive(Debug, Clone, Copy, PartialEq, Eq, Structural)]
pub enum TrackCommandStream {
    Wallet,
    Momentum,
    Arb,
    Tracker,
    Control,
}

impl TrackCommandStream {
    /// How many streams there are.
    pub const COUNT: usize = 5;

    /// The place of the stream among all of them.
    pub open spec fn place(self) -> int {
        match self {
            TrackCommandStream::Wallet => 0,
            TrackCommandStream::Momentum => 1,
            TrackCommandStream::Arb => 2,
            TrackCommandStream::Tracker => 3,
            TrackCommandStream::Control => 4,
        }
    }

    pub fn index(&self) -> (i: usize)
        ensures
            i == self.place(),
            i < 5,
    {
        match self {
            TrackCommandStream::Wallet => 0,
            TrackCommandStream::Momentum => 1,
            TrackCommandStream::Arb => 2,
            TrackCommandStream::Tracker => 3,
            TrackCommandStream::Control => 4,
        }
    }

    /// The wallet and tracker streams count revisions for each mint by itself.
    pub open spec fn per_mint(self) -> bool {
        self is Wallet || self is Tracker
    }
}

pub fn stream_uses_per_mint_revision(stream: TrackCommandStream) -> (r: bool)
    ensures
        r == stream.per_mint(),
{
    match stream {
        TrackCommandStream::Wallet | TrackCommandStream::Tracker => true,
        _ => false,
    }
}

/// How much a request to synchronise the subscription asks for.
#[derive(Debug, Clone, Copy, PartialEq, Eq, Structural)]
pub enum SyncIntentStrength {
    Debounced,
    Push,
    ConfigChange,
}

impl SyncIntentStrength {
    /// Debounced, push, configuration change.
    pub open spec fn level(self) -> int {
        match self {
            SyncIntentStrength::Debounced => 0,
            SyncIntentStrength::Push => 1,
            SyncIntentStrength::ConfigChange => 2,
        }
    }

    pub fn index(&self) -> (i: usize)
        ensures
            i == self.level(),
            i < 3,
    {
        match self {
            SyncIntentStrength::Debounced => 0,
            SyncIntentStrength::Push => 1,
            SyncIntentStrength::ConfigChange => 2,
        }
    }

    /// The stronger of the two.
    pub open spec fn max_with(self, other: Self) -> Self {
        if self.level() < other.level() {
            other
        } else {
            self
        }
    }

    pub fn strongest(self, other: Self) -> (r: Self)
        ensures
            r == self.max_with(other),
    {
        if self.index() < other.index() {
            other
        } else {
            self
        }
    }

    /// The command that asks for just this.
    pub open spec fn intent(self) -> TrackWorkerCommand {
        match self {
            SyncIntentStrength::Debounced => TrackWorkerCommand::ScheduleGeyserPushDebounced,
            SyncIntentStrength::Push => TrackWorkerCommand::ScheduleGeyserPush,
            SyncIntentStrength::ConfigChange =>
                TrackWorkerCommand::ScheduleGeyserSyncAfterConfigChange,
        }
    }

    pub fn command(&self) -> (r: TrackWorkerCommand)
        ensures
            r == self.intent(),
    {
        match self {
            SyncIntentStrength::Debounced => TrackWorkerCommand::ScheduleGeyserPushDebounced,
            SyncIntentStrength::Push => TrackWorkerCommand::ScheduleGeyserPush,
            SyncIntentStrength::ConfigChange =>
                TrackWorkerCommand::ScheduleGeyserSyncAfterConfigChange,
        }
    }
}

impl TrackWorkerCommand {
    /// The stream of the command. A mint tracked for the wallet is wallet demand.
    pub open spec fn stream(self) -> TrackCommandStream {
        match self {
            TrackWorkerCommand::ApplyMomentumActivePools(_) => TrackCommandStream::Momentum,
            TrackWorkerCommand::ApplyArbTrackRequests(_) => TrackCommandStream::Arb,
            TrackWorkerCommand::ApplyWalletPin { .. } => TrackCommandStream::Wallet,
            TrackWorkerCommand::WithdrawWalletPin { .. } => TrackCommandStream::Wallet,
            TrackWorkerCommand::TrackMint { pin, .. } => if pin == Some(TrackPinReason::Wallet) {
                TrackCommandStream::Wallet
            } else {
                TrackCommandStream::Tracker
            },
            _ => TrackCommandStream::Control,
        }
    }

    /// The mint that the command is about, where it is about one.
    pub open spec fn demand_mint(self) -> Option<Pubkey> {
        match self {
            TrackWorkerCommand::ApplyWalletPin { mint } => Some(mint),
            TrackWorkerCommand::WithdrawWalletPin { mint } => Some(mint),
            TrackWorkerCommand::TrackMint { mint, .. } => Some(mint),
            _ => None,
        }
    }

    /// How strongly the command asks to synchronise, where it does.
    pub open spec fn strength(self) -> Option<SyncIntentStrength> {
        match self {
            TrackWorkerCommand::ScheduleGeyserPushDebounced => Some(SyncIntentStrength::Debounced),
            TrackWorkerCommand::ScheduleGeyserPush => Some(SyncIntentStrength::Push),
            TrackWorkerCommand::ScheduleGeyserSyncAfterConfigChange => Some(
                SyncIntentStrength::ConfigChange,
            ),
            _ => None,
        }
    }
}

pub fn stream_for_command(command: &TrackWorkerCommand) -> (r: TrackCommandStream)
    ensures
        r == command.stream(),
{
    match command {
        TrackWorkerCommand::ApplyMomentumActivePools(_) => TrackCommandStream::Momentum,
        TrackWorkerCommand::ApplyArbTrackRequests(_) => TrackCommandStream::Arb,
        TrackWorkerCommand::ApplyWalletPin { .. } => TrackCommandStream::Wallet,
        TrackWorkerCommand::WithdrawWalletPin { .. } => TrackCommandStream::Wallet,
        TrackWorkerCommand::TrackMint { pin, .. } => match pin {
            Some(TrackPinReason::Wallet) => TrackCommandStream::Wallet,
            _ => TrackCommandStream::Tracker,
        },
        _ => TrackCommandStream::Control,
    }
}

pub fn demand_mint_for_command(command: &TrackWorkerCommand) -> (r: Option<Pubkey>)
    ensures
        r == command.demand_mint(),
{
    match command {
        TrackWorkerCommand::ApplyWalletPin { mint } => Some(*mint),
        TrackWorkerCommand::WithdrawWalletPin { mint } => Some(*mint),
        TrackWorkerCommand::TrackMint { mint, .. } => Some(*mint),
        _ => None,
    }
}

pub fn sync_intent_strength(command: &TrackWorkerCommand) -> (r: Option<SyncIntentStrength>)
    ensures
        r == command.strength(),
{
    match command {
        TrackWorkerCommand::ScheduleGeyserPushDebounced => Some(SyncIntentStrength::Debounced),
        TrackWorkerCommand::ScheduleGeyserPush => Some(SyncIntentStrength::Push),
        TrackWorkerCommand::ScheduleGeyserSyncAfterConfigChange => Some(
            SyncIntentStrength::ConfigChange,
        ),
        _ => None,
    }
}

pub fn is_continue_evict(command: &TrackWorkerCommand) -> (r: bool)
    ensures
        r == (command is ContinueGeyserEvict),
{
    match command {
        TrackWorkerCommand::ContinueGeyserEvict => true,
        _ => false,
    }
}

/// A command with its place in its stream.
#[derive(Debug, Clone, PartialEq, Eq)]
pub struct ImmutableTrackCommand {
    pub stream: TrackCommandStream,
    pub revision: u64,
    pub payload: TrackWorkerCommand,
}

impl ImmutableTrackCommand {
    pub fn new(stream: TrackCommandStream, revision: u64, payload: TrackWorkerCommand) -> (r: Self)
        ensures
            r.stream == stream,
            r.revision == revision,
            r.payload == payload,
    {
        ImmutableTrackCommand { stream, revision, payload }
    }

    /// The stream of a feed carries updates of that feed.
    pub open spec fn fits(&self) -> bool {
        match self.stream {
            TrackCommandStream::Momentum => self.payload is ApplyMomentumActivePools,
            TrackCommandStream::Arb => self.payload is ApplyArbTrackRequests,
            _ => true,
        }
    }
}

/// Which stream carries a command: updates that of their feed, wallet pins and mints tracked for
/// the wallet that of the wallet, other single mints that of the tracker, all else control. A
/// command names a mint if and only if its stream counts by mint.
pub proof fn commands_go_to_their_streams(c: TrackWorkerCommand)
    ensures
        c.stream() is Momentum <==> c is ApplyMomentumActivePools,
        c.stream() is Arb <==> c is ApplyArbTrackRequests,
        c.stream() is Wallet <==> c is ApplyWalletPin || c is WithdrawWalletPin || (c matches
            TrackWorkerCommand::TrackMint { pin, .. } && pin == Some(TrackPinReason::Wallet)),
        c.stream() is Tracker <==> (c matches TrackWorkerCommand::TrackMint { pin, .. } && pin
            != Some(TrackPinReason::Wallet)),
        c.demand_mint() is Some <==> c.stream() is Wallet || c.stream() is Tracker,
        c matches TrackWorkerCommand::ApplyWalletPin { mint } ==> c.demand_mint() == Some(mint),
        c matches TrackWorkerCommand::WithdrawWalletPin { mint } ==> c.demand_mint() == Some(mint),
        c matches TrackWorkerCommand::TrackMint { mint, .. } ==> c.demand_mint() == Some(mint),
        forall|s: TrackCommandStream| #[trigger] s.per_mint() <==> s is Wallet || s is Tracker,
{
}

/// The three requests to synchronise, from the weakest to the strongest: a debounced push, a push,
/// a change of configuration. Each strength is that of the command that asks for just it.
pub proof fn sync_requests_have_their_strength(
    c: TrackWorkerCommand,
    a: SyncIntentStrength,
    b: SyncIntentStrength,
)
    ensures
        c.strength() is Some <==> c is ScheduleGeyserPushDebounced || c is ScheduleGeyserPush
            || c is ScheduleGeyserSyncAfterConfigChange,
        a.intent().strength() == Some(a),
        c.strength() matches Some(s) ==> s.intent() == c,
        TrackWorkerCommand::ScheduleGeyserPushDebounced.strength()->0.level()
            < TrackWorkerCommand::ScheduleGeyserPush.strength()->0.level()
            < TrackWorkerCommand::ScheduleGeyserSyncAfterConfigChange.strength()->0.level(),
        a.max_with(b) == a || a.max_with(b) == b,
        a.max_with(b).level() >= a.level(),
        a.max_with(b).level() >= b.level(),
{
}

/// A mark that was set reads back, and no other changes: each stream has its own, and the wallet
/// and tracker streams have one for each mint.
pub proof fn marks_keep_apart(
    marks: Marks,
    stream: TrackCommandStream,
    mint: Option<Pubkey>,
    n: u64,
    other: TrackCommandStream,
    other_mint: Option<Pubkey>,
)
    requires
        marks.streams.len() == 5,
    ensures
        marks.set_to(stream, mint, n).of(stream, mint) == n,
        other != stream || ((stream is Wallet || stream is Tracker) && other_mint != mint)
            ==> marks.set_to(stream, mint, n).of(other, other_mint) == marks.of(other, other_mint),
        !(stream is Wallet || stream is Tracker) ==> marks.of(stream, mint) == marks.of(
            stream,
            other_mint,
        ),
        Marks::none().of(stream, mint) == 0,
{
}

/// Numbers by stream and, on the streams that count by mint, by mint.
#[verifier::ext_equal]
pub struct Marks {
    pub wallet: Map<Pubkey, u64>,
    pub tracker: Map<Pubkey, u64>,
    pub streams: Seq<u64>,
}

/// The number of `m`, zero where there is none.
pub open spec fn at_mint(m: Map<Pubkey, u64>, mint: Pubkey) -> u64 {
    if m.dom().contains(mint) {
        m[mint]
    } else {
        0
    }
}

impl Marks {
    /// Nothing counted yet.
    pub open spec fn none() -> Marks {
        Marks {
            wallet: Map::empty(),
            tracker: Map::empty(),
            streams: seq![0u64, 0u64, 0u64, 0u64, 0u64],
        }
    }

    pub open spec fn of(self, stream: TrackCommandStream, mint: Option<Pubkey>) -> u64 {
        match (stream, mint) {
            (TrackCommandStream::Wallet, Some(mint)) => at_mint(self.wallet, mint),
            (TrackCommandStream::Tracker, Some(mint)) => at_mint(self.tracker, mint),
            _ => self.streams[stream.place()],
        }
    }

    pub open spec fn set_to(self, stream: TrackCommandStream, mint: Option<Pubkey>, n: u64) -> Marks {
        match (stream, mint) {
            (TrackCommandStream::Wallet, Some(mint)) => Marks {
                wallet: self.wallet.insert(mint, n),
                ..self
            },
            (TrackCommandStream::Tracker, Some(mint)) => Marks {
                tracker: self.tracker.insert(mint, n),
                ..self
            },
            _ => Marks { streams: self.streams.update(stream.place(), n), ..self },
        }
    }
}

/// Numbers by stream and mint.
#[derive(Debug)]
pub struct MarkTable {
    wallet: OrderedMap<Pubkey, u64>,
    tracker: OrderedMap<Pubkey, u64>,
    streams: [u64; 5],
}

impl View for MarkTable {
    type V = Marks;

    closed spec fn view(&self) -> Marks {
        Marks { wallet: self.wallet@, tracker: self.tracker@, streams: self.streams@ }
    }
}

fn get_or_zero(m: &OrderedMap<Pubkey, u64>, mint: &Pubkey) -> (n: u64)
    requires
        m.wf(),
    ensures
        n == at_mint(m@, *mint),
{
    match m.get(mint) {
        Some(n) => *n,
        None => 0,
    }
}

impl MarkTable {
    pub closed spec fn wf(&self) -> bool {
        self.wallet.wf() && self.tracker.wf()
    }

    pub proof fn lemma_streams(&self)
        ensures
            self@.streams.len() == 5,
    {
    }

    pub fn new() -> (r: Self)
        ensures
            r.wf(),
            r@ == Marks::none(),
    {
        let r = MarkTable {
            wallet: OrderedMap::new(),
            tracker: OrderedMap::new(),
            streams: [0, 0, 0, 0, 0],
        };
        assert(r.streams@ =~= seq![0u64, 0u64, 0u64, 0u64, 0u64]);
        r
    }

    pub fn get(&self, stream: TrackCommandStream, mint: Option<Pubkey>) -> (n: u64)
        requires
            self.wf(),
        ensures
            n == self@.of(stream, mint),
    {
        match (stream, mint) {
            (TrackCommandStream::Wallet, Some(mint)) => get_or_zero(&self.wallet, &mint),
            (TrackCommandStream::Tracker, Some(mint)) => get_or_zero(&self.tracker, &mint),
            _ => self.streams[stream.index()],
        }
    }

    pub fn set(&mut self, stream: TrackCommandStream, mint: Option<Pubkey>, n: u64)
        requires
            old(self).wf(),
        ensures
            final(self).wf(),
            final(self)@ == old(self)@.set_to(stream, mint, n),
    {
        match (stream, mint) {
            (TrackCommandStream::Wallet, Some(mint)) => {
                let _ = self.wallet.insert(mint, n);
            },
            (TrackCommandStream::Tracker, Some(mint)) => {
                let _ = self.tracker.insert(mint, n);
            },
            _ => {
                let i = stream.index();
                self.streams[i] = n;
            },
        }
    }
}

/// One more, as far as the type goes.
pub open spec fn next(n: u64) -> u64 {
    if n < u64::MAX {
        (n + 1) as u64
    } else {
        n
    }
}

/// Gives out revisions: each stream counts up from one, for each mint by itself where the
/// stream counts by mint.
#[derive(Debug)]
pub struct RevisionAssigner {
    issued: MarkTable,
}

impl View for RevisionAssigner {
    type V = Marks;

    closed spec fn view(&self) -> Marks {
        self.issued@
    }
}

impl RevisionAssigner {
    pub closed spec fn wf(&self) -> bool {
        self.issued.wf()
    }

    pub fn new() -> (r: Self)
        ensures
            r.wf(),
            r@ == Marks::none(),
    {
        RevisionAssigner { issued: MarkTable::new() }
    }

    /// The next revision of a stream, for the mint where the stream counts by mint.
    pub fn next_revision(&mut self, stream: TrackCommandStream, mint: Option<Pubkey>) -> (n: u64)
        requires
            old(self).wf(),
        ensures
            final(self).wf(),
            n == next(old(self)@.of(stream, mint)),
            final(self)@ == old(self)@.set_to(stream, mint, n),
    {
        let n = self.issued.get(stream, mint).saturating_add(1);
        self.issued.set(stream, mint, n);
        n
    }

    /// The last revision given out on a stream for a mint, zero before the first.
    pub fn last_issued_revision_for_mint(&self, stream: TrackCommandStream, mint: Pubkey) -> (n:
        u64)
        requires
            self.wf(),
        ensures
            n == self@.of(stream, Some(mint)),
    {
        self.issued.get(stream, Some(mint))
    }
}

impl Default for RevisionAssigner {
    fn default() -> (r: Self)
        ensures
            r.wf(),
            r@ == Marks::none(),
    {
        RevisionAssigner::new()
    }
}

} // verus!
