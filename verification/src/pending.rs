//! Commands that wait for room in the worker's queue, and how far each stream has been applied.
//!
//! A command that finds the queue full is kept here and replayed later. What waits is merged
//! where a newer command says all that an older one did, so that it stays within a fixed
//! number of slots.

use crate::coalesce;
use crate::coalesce::{merge_arb_track_requests_updates, merge_momentum_active_pools_updates};
use crate::nats::{ArbTrackRequestsUpdate, MomentumActivePoolsUpdate};
use crate::ordered::Ranked;
use crate::pubkey::Pubkey;
use crate::worker_commands;
use crate::worker_commands::{
    demand_mint_for_command, is_continue_evict, stream_for_command, stream_uses_per_mint_revision,
    sync_intent_strength, ImmutableTrackCommand, MarkTable, Marks, RevisionAssigner,
    SyncIntentStrength, TrackCommandStream, TrackWorkerCommand,
};
use vstd::prelude::*;

verus! {

/// How many commands may wait.
pub const MARKET_DATA_TRACK_PENDING_CAP: usize = 512;

/// How many commands may be under way, queued or waiting.
pub const MARKET_DATA_TRACK_INFLIGHT_CAP: usize = 1024;

/// What became of a command that found the queue full.
#[derive(Debug, Clone, Copy, PartialEq, Eq, Structural)]
pub enum StageResult {
    /// It waits, by itself or merged into another, and will be replayed.
    Staged,
    /// It could not be kept.
    Lost,
}

/// Which waiting commands are meant.
#[derive(Debug, Clone, Copy)]
pub enum Selection {
    /// Requests to synchronise.
    Sync,
    /// Requests to go on evicting.
    Evict,
    /// Demand for a mint on a stream, older than a revision.
    Demand { stream: TrackCommandStream, mint: Pubkey, below: u64 },
    /// Commands of a stream, older than a revision.
    Older { stream: TrackCommandStream, below: u64 },
    /// All commands of a stream.
    Of { stream: TrackCommandStream },
    /// All demand for a mint on a stream.
    About { stream: TrackCommandStream, mint: Pubkey },
}

impl Selection {
    pub open spec fn takes(self, c: ImmutableTrackCommand) -> bool {
        match self {
            Selection::Sync => c.payload.strength() is Some,
            Selection::Evict => c.payload is ContinueGeyserEvict,
            Selection::Demand { stream, mint, below } => {
                &&& c.stream == stream
                &&& c.payload.demand_mint() == Some(mint)
                &&& c.revision < below
            },
            Selection::Older { stream, below } => c.stream == stream && c.revision < below,
            Selection::Of { stream } => c.stream == stream,
            Selection::About { stream, mint } => {
                c.stream == stream && c.payload.demand_mint() == Some(mint)
            },
        }
    }

    fn selects(&self, c: &ImmutableTrackCommand) -> (r: bool)
        ensures
            r == self.takes(*c),
    {
        match self {
            Selection::Sync => sync_intent_strength(&c.payload).is_some(),
            Selection::Evict => is_continue_evict(&c.payload),
            Selection::Demand { stream, mint, below } => {
                c.stream == *stream && is_about(&c.payload, mint) && c.revision < *below
            },
            Selection::Older { stream, below } => c.stream == *stream && c.revision < *below,
            Selection::Of { stream } => c.stream == *stream,
            Selection::About { stream, mint } => {
                c.stream == *stream && is_about(&c.payload, mint)
            },
        }
    }
}

fn is_about(command: &TrackWorkerCommand, mint: &Pubkey) -> (r: bool)
    ensures
        r == (command.demand_mint() == Some(*mint)),
{
    match demand_mint_for_command(command) {
        Some(m) => m.same(mint),
        None => false,
    }
}

/// The selected commands, in their order.
pub open spec fn picked(s: Seq<ImmutableTrackCommand>, sel: Selection) -> Seq<ImmutableTrackCommand>
    decreases s.len(),
{
    if s.len() == 0 {
        Seq::empty()
    } else if sel.takes(s.last()) {
        picked(s.drop_last(), sel).push(s.last())
    } else {
        picked(s.drop_last(), sel)
    }
}

/// The commands without the selected ones, in their order.
pub open spec fn left(s: Seq<ImmutableTrackCommand>, sel: Selection) -> Seq<ImmutableTrackCommand>
    decreases s.len(),
{
    if s.len() == 0 {
        Seq::empty()
    } else if sel.takes(s.last()) {
        left(s.drop_last(), sel)
    } else {
        left(s.drop_last(), sel).push(s.last())
    }
}

/// Some waiting command is selected.
pub open spec fn any(s: Seq<ImmutableTrackCommand>, sel: Selection) -> bool {
    exists|i: int| 0 <= i < s.len() && sel.takes(#[trigger] s[i])
}

/// At most one waiting command is selected.
pub open spec fn at_most_one(s: Seq<ImmutableTrackCommand>, sel: Selection) -> bool {
    forall|i: int, j: int|
        0 <= i < s.len() && 0 <= j < s.len() && sel.takes(#[trigger] s[i]) && sel.takes(
            #[trigger] s[j],
        ) ==> i == j
}

/// The newest revision among the commands and `floor`.
pub open spec fn newest(s: Seq<ImmutableTrackCommand>, floor: u64) -> u64
    decreases s.len(),
{
    if s.len() == 0 {
        floor
    } else {
        let rest = newest(s.drop_last(), floor);
        if s.last().revision > rest {
            s.last().revision
        } else {
            rest
        }
    }
}

/// The strongest request to synchronise among the commands and `base`.
pub open spec fn strongest(
    s: Seq<ImmutableTrackCommand>,
    base: SyncIntentStrength,
) -> SyncIntentStrength
    decreases s.len(),
{
    if s.len() == 0 {
        base
    } else {
        let rest = strongest(s.drop_last(), base);
        match s.last().payload.strength() {
            Some(strength) => rest.max_with(strength),
            None => rest,
        }
    }
}

proof fn lemma_left(s: Seq<ImmutableTrackCommand>, sel: Selection)
    ensures
        left(s, sel).len() + picked(s, sel).len() == s.len(),
        forall|i: int|
            0 <= i < left(s, sel).len() ==> !sel.takes(#[trigger] left(s, sel)[i]) && s.contains(
                left(s, sel)[i],
            ),
        forall|i: int|
            0 <= i < picked(s, sel).len() ==> sel.takes(#[trigger] picked(s, sel)[i])
                && s.contains(picked(s, sel)[i]),
        forall|i: int|
            0 <= i < s.len() && !sel.takes(#[trigger] s[i]) ==> left(s, sel).contains(s[i]),
        forall|i: int|
            0 <= i < s.len() && sel.takes(#[trigger] s[i]) ==> picked(s, sel).contains(s[i]),
        !any(s, sel) ==> left(s, sel) == s && picked(s, sel).len() == 0,
        any(s, sel) ==> picked(s, sel).len() > 0,
    decreases s.len(),
{
    if s.len() > 0 {
        let t = s.drop_last();
        lemma_left(t, sel);
        let n = s.len() - 1;
        assert forall|i: int| 0 <= i < left(s, sel).len() implies !sel.takes(
            #[trigger] left(s, sel)[i],
        ) && s.contains(left(s, sel)[i]) by {
            if i < left(t, sel).len() {
                assert(left(s, sel)[i] == left(t, sel)[i]);
                let j = choose|j: int| 0 <= j < t.len() && t[j] == left(t, sel)[i];
                assert(s[j] == t[j]);
            } else {
                assert(s[n] == left(s, sel)[i]);
            }
        }
        assert forall|i: int| 0 <= i < picked(s, sel).len() implies sel.takes(
            #[trigger] picked(s, sel)[i],
        ) && s.contains(picked(s, sel)[i]) by {
            if i < picked(t, sel).len() {
                assert(picked(s, sel)[i] == picked(t, sel)[i]);
                let j = choose|j: int| 0 <= j < t.len() && t[j] == picked(t, sel)[i];
                assert(s[j] == t[j]);
            } else {
                assert(s[n] == picked(s, sel)[i]);
            }
        }
        assert forall|i: int| 0 <= i < s.len() && !sel.takes(#[trigger] s[i]) implies left(
            s,
            sel,
        ).contains(s[i]) by {
            if i < n {
                assert(t[i] == s[i]);
                let j = choose|j: int| 0 <= j < left(t, sel).len() && left(t, sel)[j] == s[i];
                assert(left(s, sel)[j] == s[i]);
            } else {
                assert(left(s, sel)[left(s, sel).len() - 1] == s[i]);
            }
        }
        assert forall|i: int| 0 <= i < s.len() && sel.takes(#[trigger] s[i]) implies picked(
            s,
            sel,
        ).contains(s[i]) by {
            if i < n {
                assert(t[i] == s[i]);
                let j = choose|j: int| 0 <= j < picked(t, sel).len() && picked(t, sel)[j] == s[i];
                assert(picked(s, sel)[j] == s[i]);
            } else {
                assert(picked(s, sel)[picked(s, sel).len() - 1] == s[i]);
            }
        }
        if !any(s, sel) {
            if any(t, sel) {
                let i = choose|i: int| 0 <= i < t.len() && sel.takes(#[trigger] t[i]);
                assert(sel.takes(s[i]));
            }
            assert(!sel.takes(s[n]));
            assert(left(s, sel) =~= s);
        }
        if any(s, sel) {
            let i = choose|i: int| 0 <= i < s.len() && sel.takes(#[trigger] s[i]);
            assert(picked(s, sel).contains(s[i]));
        }
    }
}

/// What stays at most once does so in what is left of the commands.
proof fn lemma_left_at_most_one(s: Seq<ImmutableTrackCommand>, sel: Selection, other: Selection)
    requires
        at_most_one(s, other),
    ensures
        at_most_one(left(s, sel), other),
    decreases s.len(),
{
    if s.len() > 0 {
        let t = s.drop_last();
        assert(at_most_one(t, other)) by {
            assert forall|i: int, j: int|
                0 <= i < t.len() && 0 <= j < t.len() && other.takes(#[trigger] t[i]) && other.takes(
                    #[trigger] t[j],
                ) implies i == j by {
                assert(t[i] == s[i]);
                assert(t[j] == s[j]);
            }
        }
        lemma_left_at_most_one(t, sel, other);
        let l = left(s, sel);
        let lt = left(t, sel);
        if !sel.takes(s.last()) {
            assert forall|i: int, j: int|
                0 <= i < l.len() && 0 <= j < l.len() && other.takes(#[trigger] l[i]) && other.takes(
                    #[trigger] l[j],
                ) implies i == j by {
                lemma_left(t, sel);
                if i < lt.len() && j < lt.len() {
                    assert(l[i] == lt[i]);
                    assert(l[j] == lt[j]);
                } else if i < lt.len() {
                    assert(t.contains(lt[i]));
                    let p = choose|p: int| 0 <= p < t.len() && t[p] == lt[i];
                    assert(s[p] == l[i]);
                    assert(s[s.len() - 1] == l[j]);
                    assert(other.takes(s[p]) && other.takes(s[s.len() - 1]));
                } else if j < lt.len() {
                    assert(t.contains(lt[j]));
                    let p = choose|p: int| 0 <= p < t.len() && t[p] == lt[j];
                    assert(s[p] == l[j]);
                    assert(s[s.len() - 1] == l[i]);
                    assert(other.takes(s[p]) && other.takes(s[s.len() - 1]));
                }
            }
        }
    }
}

/// Takes the selected commands out of `pending`.
fn extract(pending: &mut Vec<ImmutableTrackCommand>, sel: &Selection) -> (out: Vec<
    ImmutableTrackCommand,
>)
    ensures
        final(pending)@ == left(old(pending)@, *sel),
        out@ == picked(old(pending)@, *sel),
{
    let ghost before = pending@;
    let mut out: Vec<ImmutableTrackCommand> = Vec::new();
    let ghost mut seen: int = 0;
    let mut i: usize = 0;
    assert(before.take(0) =~= Seq::empty());
    assert(before.skip(0) =~= before);
    while i < pending.len()
        invariant
            0 <= seen <= before.len(),
            i == left(before.take(seen), *sel).len(),
            pending@ =~= left(before.take(seen), *sel) + before.skip(seen),
            out@ == picked(before.take(seen), *sel),
        decreases pending@.len() - i,
    {
        proof {
            let t = before.take(seen + 1);
            assert(t.drop_last() =~= before.take(seen));
            assert(t.last() == before[seen]);
            assert(pending@[i as int] == before[seen]);
            assert(before.skip(seen) =~= seq![before[seen]] + before.skip(seen + 1));
        }
        if sel.selects(&pending[i]) {
            let c = pending.remove(i);
            out.push(c);
        } else {
            i += 1;
        }
        proof {
            seen = seen + 1;
        }
    }
    proof {
        assert(seen == before.len());
        assert(before.take(seen) =~= before);
        assert(before.skip(seen) =~= Seq::empty());
        assert(pending@ =~= left(before, *sel));
    }
    out
}

fn has_any(pending: &Vec<ImmutableTrackCommand>, sel: &Selection) -> (r: bool)
    ensures
        r == any(pending@, *sel),
{
    let mut i: usize = 0;
    while i < pending.len()
        invariant
            i <= pending@.len(),
            forall|j: int| 0 <= j < i ==> !sel.takes(#[trigger] pending@[j]),
        decreases pending@.len() - i,
    {
        if sel.selects(&pending[i]) {
            return true;
        }
        i += 1;
    }
    false
}

fn newest_revision(commands: &Vec<ImmutableTrackCommand>, floor: u64) -> (n: u64)
    ensures
        n == newest(commands@, floor),
{
    let mut n = floor;
    let mut i: usize = 0;
    while i < commands.len()
        invariant
            i <= commands@.len(),
            n == newest(commands@.take(i as int), floor),
        decreases commands@.len() - i,
    {
        proof {
            assert(commands@.take(i + 1).drop_last() =~= commands@.take(i as int));
        }
        if commands[i].revision > n {
            n = commands[i].revision;
        }
        i += 1;
    }
    assert(commands@.take(i as int) =~= commands@);
    n
}

fn strongest_intent(commands: &Vec<ImmutableTrackCommand>, base: SyncIntentStrength) -> (r:
    SyncIntentStrength)
    ensures
        r == strongest(commands@, base),
{
    let mut r = base;
    let mut i: usize = 0;
    while i < commands.len()
        invariant
            i <= commands@.len(),
            r == strongest(commands@.take(i as int), base),
        decreases commands@.len() - i,
    {
        proof {
            assert(commands@.take(i + 1).drop_last() =~= commands@.take(i as int));
        }
        if let Some(strength) = sync_intent_strength(&commands[i].payload) {
            r = r.strongest(strength);
        }
        i += 1;
    }
    assert(commands@.take(i as int) =~= commands@);
    r
}

/// What of the waiting commands stays when `cmd` comes: all that it does not replace.
pub open spec fn kept(
    pending: Seq<ImmutableTrackCommand>,
    cmd: ImmutableTrackCommand,
) -> Seq<ImmutableTrackCommand> {
    if cmd.payload.strength() is Some {
        left(pending, Selection::Sync)
    } else if cmd.payload is ContinueGeyserEvict {
        left(pending, Selection::Evict)
    } else if cmd.stream.per_mint() {
        match cmd.payload.demand_mint() {
            Some(mint) => left(
                pending,
                Selection::Demand { stream: cmd.stream, mint, below: cmd.revision },
            ),
            None => pending,
        }
    } else if cmd.stream is Momentum || cmd.stream is Arb {
        left(pending, Selection::Older { stream: cmd.stream, below: cmd.revision })
    } else {
        pending
    }
}

/// The momentum updates that `older` and `cmd` carry.
pub open spec fn momentum_updates(
    older: Seq<ImmutableTrackCommand>,
    cmd: ImmutableTrackCommand,
) -> Seq<MomentumActivePoolsUpdate> {
    older.push(cmd).map_values(
        |c: ImmutableTrackCommand| c.payload->ApplyMomentumActivePools_0,
    )
}

/// The arbitrage updates that `older` and `cmd` carry.
pub open spec fn arb_updates(
    older: Seq<ImmutableTrackCommand>,
    cmd: ImmutableTrackCommand,
) -> Seq<ArbTrackRequestsUpdate> {
    older.push(cmd).map_values(|c: ImmutableTrackCommand| c.payload->ApplyArbTrackRequests_0)
}

/// `out` says all that `cmd` and the waiting commands that it replaces say: the strongest
/// request to synchronise, the merge of the updates of a feed, else `cmd` itself.
pub open spec fn stands_for(
    pending: Seq<ImmutableTrackCommand>,
    cmd: ImmutableTrackCommand,
    out: ImmutableTrackCommand,
) -> bool {
    let older = picked(pending, Selection::Older { stream: cmd.stream, below: cmd.revision });
    if cmd.payload.strength() is Some && any(pending, Selection::Sync) {
        let syncs = picked(pending, Selection::Sync);
        out == ImmutableTrackCommand {
            stream: TrackCommandStream::Control,
            revision: newest(syncs, cmd.revision),
            payload: strongest(syncs, cmd.payload.strength()->0).intent(),
        }
    } else if cmd.payload.strength() is Some || cmd.payload is ContinueGeyserEvict {
        out == cmd
    } else if cmd.stream is Momentum && older.len() > 0 {
        &&& out.stream == cmd.stream
        &&& out.revision == cmd.revision
        &&& out.payload matches TrackWorkerCommand::ApplyMomentumActivePools(m)
            && coalesce::is_merge(m@, coalesce::views(momentum_updates(older, cmd)))
    } else if cmd.stream is Arb && older.len() > 0 {
        &&& out.stream == cmd.stream
        &&& out.revision == cmd.revision
        &&& out.payload matches TrackWorkerCommand::ApplyArbTrackRequests(m)
            && coalesce::is_merge(m@, coalesce::views(arb_updates(older, cmd)))
    } else {
        out == cmd
    }
}

/// A request to go on evicting says nothing new beside a waiting one that is as new.
pub open spec fn says_nothing_new(
    pending: Seq<ImmutableTrackCommand>,
    cmd: ImmutableTrackCommand,
) -> bool {
    &&& cmd.payload is ContinueGeyserEvict
    &&& exists|i: int|
        0 <= i < pending.len() && (#[trigger] pending[i]).payload is ContinueGeyserEvict
            && cmd.revision <= pending[i].revision
}

/// The waiting commands after the oldest has made room, where there is none.
pub open spec fn with_room(s: Seq<ImmutableTrackCommand>, cap: nat) -> Seq<ImmutableTrackCommand> {
    if s.len() < cap || s.len() == 0 {
        s
    } else {
        s.remove(0)
    }
}

/// `after` is what waits once `cmd` has been kept beside `before`.
pub open spec fn is_staged(
    before: Seq<ImmutableTrackCommand>,
    cap: nat,
    cmd: ImmutableTrackCommand,
    after: Seq<ImmutableTrackCommand>,
) -> bool {
    if says_nothing_new(before, cmd) {
        after == before
    } else {
        &&& after.len() > 0
        &&& after.drop_last() == with_room(kept(before, cmd), cap)
        &&& stands_for(before, cmd, after.last())
    }
}

/// The revision up to which the stream of `cmd` has been applied, for its mint where the
/// stream counts by mint.
pub open spec fn applied_up_to(applied: Marks, cmd: ImmutableTrackCommand) -> u64 {
    applied.of(cmd.stream, cmd.payload.demand_mint())
}

/// `cmd` is newer than all that has been applied in its place.
pub open spec fn applicable(applied: Marks, cmd: ImmutableTrackCommand) -> bool {
    cmd.revision > applied_up_to(applied, cmd)
}

/// A stream has been applied up to `n`, if it had not been further.
pub open spec fn raised(
    applied: Marks,
    stream: TrackCommandStream,
    mint: Option<Pubkey>,
    n: u64,
) -> Marks {
    if n > applied.of(stream, mint) {
        applied.set_to(stream, mint, n)
    } else {
        applied
    }
}

/// The streams of the commands, by first appearance.
pub open spec fn streams_seen(s: Seq<ImmutableTrackCommand>) -> Seq<TrackCommandStream>
    decreases s.len(),
{
    if s.len() == 0 {
        Seq::empty()
    } else {
        let rest = streams_seen(s.drop_last());
        if rest.contains(s.last().stream) {
            rest
        } else {
            rest.push(s.last().stream)
        }
    }
}

/// `c` among commands in revision order, after those as new as it.
pub open spec fn inserted_by_revision(
    s: Seq<ImmutableTrackCommand>,
    c: ImmutableTrackCommand,
) -> Seq<ImmutableTrackCommand>
    decreases s.len(),
{
    if s.len() == 0 || s.last().revision <= c.revision {
        s.push(c)
    } else {
        inserted_by_revision(s.drop_last(), c).push(s.last())
    }
}

/// The commands in revision order; those of one revision keep their order.
pub open spec fn by_revision(s: Seq<ImmutableTrackCommand>) -> Seq<ImmutableTrackCommand>
    decreases s.len(),
{
    if s.len() == 0 {
        s
    } else {
        inserted_by_revision(by_revision(s.drop_last()), s.last())
    }
}

/// The commands that are still applicable, in their order.
pub open spec fn fresh(s: Seq<ImmutableTrackCommand>, applied: Marks) -> Seq<ImmutableTrackCommand>
    decreases s.len(),
{
    if s.len() == 0 {
        s
    } else if applicable(applied, s.last()) {
        fresh(s.drop_last(), applied).push(s.last())
    } else {
        fresh(s.drop_last(), applied)
    }
}

/// What is replayed of the given streams.
pub open spec fn replayed_of(
    s: Seq<ImmutableTrackCommand>,
    applied: Marks,
    streams: Seq<TrackCommandStream>,
) -> Seq<ImmutableTrackCommand>
    decreases streams.len(),
{
    if streams.len() == 0 {
        Seq::empty()
    } else {
        replayed_of(s, applied, streams.drop_last()) + fresh(
            by_revision(picked(s, Selection::Of { stream: streams.last() })),
            applied,
        )
    }
}

/// What is replayed of the waiting commands: stream by stream as they first appear, within a
/// stream by revision, and only what is still applicable.
pub open spec fn replayed(s: Seq<ImmutableTrackCommand>, applied: Marks) -> Seq<
    ImmutableTrackCommand,
> {
    replayed_of(s, applied, streams_seen(s))
}

proof fn lemma_inserted(s: Seq<ImmutableTrackCommand>, c: ImmutableTrackCommand, p: int)
    requires
        0 <= p <= s.len(),
        p > 0 ==> s[p - 1].revision <= c.revision,
        forall|j: int| p <= j < s.len() ==> (#[trigger] s[j]).revision > c.revision,
    ensures
        inserted_by_revision(s, c) == s.insert(p, c),
    decreases s.len(),
{
    if p == s.len() {
        assert(s.insert(p, c) =~= s.push(c));
    } else {
        let t = s.drop_last();
        assert(s[s.len() - 1].revision > c.revision);
        assert forall|j: int| p <= j < t.len() implies (#[trigger] t[j]).revision > c.revision by {
            assert(t[j] == s[j]);
        }
        lemma_inserted(t, c, p);
        assert(s.insert(p, c) =~= t.insert(p, c).push(s.last()));
    }
}

fn sort_by_revision(commands: Vec<ImmutableTrackCommand>) -> (r: Vec<ImmutableTrackCommand>)
    ensures
        r@ == by_revision(commands@),
{
    let mut commands = commands;
    let ghost all = commands@;
    let ghost mut seen: int = 0;
    let mut sorted: Vec<ImmutableTrackCommand> = Vec::new();
    assert(all.take(0) =~= Seq::empty());
    assert(all.skip(0) =~= all);
    while commands.len() > 0
        invariant
            0 <= seen <= all.len(),
            commands@ == all.skip(seen),
            sorted@ == by_revision(all.take(seen)),
        decreases commands@.len(),
    {
        let c = commands.remove(0);
        let mut p: usize = sorted.len();
        while p > 0 && sorted[p - 1].revision > c.revision
            invariant
                p <= sorted@.len(),
                forall|j: int| p <= j < sorted@.len() ==> (#[trigger] sorted@[j]).revision > c.revision,
            decreases p,
        {
            p -= 1;
        }
        proof {
            lemma_inserted(sorted@, c, p as int);
            let t = all.take(seen + 1);
            assert(t.drop_last() =~= all.take(seen));
            assert(t.last() == c);
            assert(all.skip(seen).remove(0) =~= all.skip(seen + 1));
        }
        sorted.insert(p, c);
        proof {
            seen = seen + 1;
        }
    }
    assert(all.take(seen) =~= all);
    sorted
}

/// The state of the store.
#[verifier::ext_equal]
pub struct StoreView {
    /// What waits, oldest first.
    pub pending: Seq<ImmutableTrackCommand>,
    pub cap: nat,
    /// How many commands are queued.
    pub inflight: usize,
    /// The last revision given out.
    pub issued: Marks,
    /// The newest revision applied.
    pub applied: Marks,
    /// How many requests to synchronise are queued, in all and by strength.
    pub syncs: u32,
    pub syncs_by_strength: Seq<u32>,
    /// How many requests to go on evicting are queued.
    pub evicts: u32,
}

/// One more, as far as the type goes.
pub open spec fn up(n: u32) -> u32 {
    if n < u32::MAX {
        (n + 1) as u32
    } else {
        n
    }
}

/// One less, down to zero.
pub open spec fn down(n: u32) -> u32 {
    if n > 0 {
        (n - 1) as u32
    } else {
        n
    }
}

impl StoreView {
    /// The requests to synchronise that are queued are counted by strength too.
    pub open spec fn counts_each_sync(self) -> bool {
        &&& self.syncs_by_strength.len() == 3
        &&& self.syncs <= self.syncs_by_strength[0] + self.syncs_by_strength[1]
            + self.syncs_by_strength[2]
    }

    /// The strongest request to synchronise that is queued.
    pub open spec fn queued_strength(self) -> Option<SyncIntentStrength> {
        if self.syncs_by_strength[2] > 0 {
            Some(SyncIntentStrength::ConfigChange)
        } else if self.syncs_by_strength[1] > 0 {
            Some(SyncIntentStrength::Push)
        } else if self.syncs_by_strength[0] > 0 {
            Some(SyncIntentStrength::Debounced)
        } else {
            None
        }
    }

    /// The command with the next revision of its stream, and the state with that given out.
    pub open spec fn wrapped(self, payload: TrackWorkerCommand) -> (
        ImmutableTrackCommand,
        StoreView,
    ) {
        let stream = payload.stream();
        let mint = payload.demand_mint();
        let revision = worker_commands::next(self.issued.of(stream, mint));
        (
            ImmutableTrackCommand { stream, revision, payload },
            StoreView { issued: self.issued.set_to(stream, mint, revision), ..self },
        )
    }

    /// With one more of `command` queued.
    pub open spec fn queued(self, command: TrackWorkerCommand) -> StoreView {
        match command.strength() {
            Some(strength) => StoreView {
                syncs: up(self.syncs),
                syncs_by_strength: self.syncs_by_strength.update(
                    strength.level(),
                    up(self.syncs_by_strength[strength.level()]),
                ),
                ..self
            },
            None => if command is ContinueGeyserEvict {
                StoreView { evicts: up(self.evicts), ..self }
            } else {
                self
            },
        }
    }

    /// With one less of `command` queued.
    pub open spec fn dequeued(self, command: TrackWorkerCommand) -> StoreView {
        match command.strength() {
            Some(strength) => StoreView {
                syncs: down(self.syncs),
                syncs_by_strength: self.syncs_by_strength.update(
                    strength.level(),
                    down(self.syncs_by_strength[strength.level()]),
                ),
                ..self
            },
            None => if command is ContinueGeyserEvict {
                StoreView { evicts: down(self.evicts), ..self }
            } else {
                self
            },
        }
    }

    /// With one more command queued.
    pub open spec fn begun(self) -> StoreView {
        StoreView {
            inflight: if self.inflight < usize::MAX {
                (self.inflight + 1) as usize
            } else {
                usize::MAX
            },
            ..self
        }
    }

    /// With one less command queued.
    pub open spec fn ended(self) -> StoreView {
        StoreView {
            inflight: if self.inflight > 0 {
                (self.inflight - 1) as usize
            } else {
                0
            },
            ..self
        }
    }

    /// With `cmd` applied.
    pub open spec fn marked(self, cmd: ImmutableTrackCommand) -> StoreView {
        StoreView {
            applied: raised(self.applied, cmd.stream, cmd.payload.demand_mint(), cmd.revision),
            ..self
        }
    }

    /// The newest tracker demand for the mint: applied, given out or waiting.
    pub open spec fn tracker_demand(self, mint: Pubkey) -> u64 {
        let applied = self.applied.of(TrackCommandStream::Tracker, Some(mint));
        let issued = self.issued.of(TrackCommandStream::Tracker, Some(mint));
        let floor = if issued > applied {
            issued
        } else {
            applied
        };
        newest(
            picked(
                self.pending,
                Selection::About { stream: TrackCommandStream::Tracker, mint },
            ),
            floor,
        )
    }

    /// With all tracker demand for the mint up to now superseded.
    pub open spec fn tracker_superseded(self, mint: Pubkey) -> StoreView {
        StoreView {
            applied: raised(
                self.applied,
                TrackCommandStream::Tracker,
                Some(mint),
                self.tracker_demand(mint),
            ),
            ..self
        }
    }

    /// With wallet demand applied, which supersedes tracker demand for its mint.
    pub open spec fn wallet_marked(self, cmd: ImmutableTrackCommand) -> StoreView {
        match cmd.payload.demand_mint() {
            Some(mint) => self.marked(cmd).tracker_superseded(mint),
            None => self.marked(cmd),
        }
    }
}

/// Commands that wait, with how far each stream has been given out and applied.
#[derive(Debug)]
pub struct BoundedProtocolStore {
    pending: Vec<ImmutableTrackCommand>,
    pending_cap: usize,
    inflight: usize,
    inflight_cap: usize,
    revision: RevisionAssigner,
    last_applied: MarkTable,
    inflight_sync_intent: u32,
    inflight_sync_strength_counts: [u32; 3],
    inflight_continue_evict: u32,
}

impl View for BoundedProtocolStore {
    type V = StoreView;

    closed spec fn view(&self) -> StoreView {
        StoreView {
            pending: self.pending@,
            cap: self.pending_cap as nat,
            inflight: self.inflight,
            issued: self.revision@,
            applied: self.last_applied@,
            syncs: self.inflight_sync_intent,
            syncs_by_strength: self.inflight_sync_strength_counts@,
            evicts: self.inflight_continue_evict,
        }
    }
}

/// What always holds of the waiting commands: each is one that its stream carries, at most
/// one asks to synchronise, at most one to go on evicting, and they keep to the cap, or to
/// one where the cap is zero.
pub open spec fn in_bounds(pending: Seq<ImmutableTrackCommand>, cap: nat) -> bool {
    &&& forall|i: int| 0 <= i < pending.len() ==> (#[trigger] pending[i]).fits()
    &&& at_most_one(pending, Selection::Sync)
    &&& at_most_one(pending, Selection::Evict)
    &&& pending.len() <= cap || pending.len() <= 1
}

proof fn lemma_left_in_bounds(s: Seq<ImmutableTrackCommand>, cap: nat, sel: Selection)
    requires
        in_bounds(s, cap),
    ensures
        in_bounds(left(s, sel), cap),
        any(s, sel) ==> left(s, sel).len() < s.len(),
{
    lemma_left(s, sel);
    lemma_left_at_most_one(s, sel, Selection::Sync);
    lemma_left_at_most_one(s, sel, Selection::Evict);
    let l = left(s, sel);
    assert forall|i: int| 0 <= i < l.len() implies (#[trigger] l[i]).fits() by {
        assert(s.contains(l[i]));
    }
}

proof fn lemma_push_in_bounds(s: Seq<ImmutableTrackCommand>, cap: nat, c: ImmutableTrackCommand)
    requires
        in_bounds(s, cap),
        c.fits(),
        Selection::Sync.takes(c) ==> !any(s, Selection::Sync),
        Selection::Evict.takes(c) ==> !any(s, Selection::Evict),
    ensures
        in_bounds(with_room(s, cap).push(c), cap),
{
    let r = with_room(s, cap);
    let after = r.push(c);
    assert forall|i: int| 0 <= i < r.len() implies s.contains(#[trigger] r[i]) by {
        if r.len() == s.len() {
            assert(s[i] == r[i]);
        } else {
            assert(s[i + 1] == r[i]);
        }
    }
    assert forall|i: int| 0 <= i < after.len() implies (#[trigger] after[i]).fits() by {
        if i < r.len() {
            assert(after[i] == r[i]);
        }
    }
    let shift: int = if r.len() == s.len() {
        0
    } else {
        1
    };
    assert forall|i: int, j: int|
        0 <= i < after.len() && 0 <= j < after.len() && Selection::Sync.takes(#[trigger] after[i])
            && Selection::Sync.takes(#[trigger] after[j]) implies i == j by {
        if i < r.len() {
            assert(s[i + shift] == after[i]);
        }
        if j < r.len() {
            assert(s[j + shift] == after[j]);
        }
    }
    assert forall|i: int, j: int|
        0 <= i < after.len() && 0 <= j < after.len() && Selection::Evict.takes(#[trigger] after[i])
            && Selection::Evict.takes(#[trigger] after[j]) implies i == j by {
        if i < r.len() {
            assert(s[i + shift] == after[i]);
        }
        if j < r.len() {
            assert(s[j + shift] == after[j]);
        }
    }
}

impl BoundedProtocolStore {
    pub closed spec fn wf(&self) -> bool {
        &&& self.revision.wf()
        &&& self.last_applied.wf()
        &&& in_bounds(self.pending@, self.pending_cap as nat)
        &&& self@.counts_each_sync()
    }

    /// What waits keeps to its bounds, and every queued request to synchronise is counted
    /// under a strength.
    pub proof fn store_keeps_to_its_bounds(&self)
        requires
            self.wf(),
        ensures
            in_bounds(self@.pending, self@.cap),
            self@.counts_each_sync(),
            self@.applied.streams.len() == 5,
    {
        self.last_applied.lemma_streams();
    }

    /// An empty store for the given numbers of waiting and queued commands.
    pub fn new(pending_cap: usize, inflight_cap: usize) -> (r: Self)
        ensures
            r.wf(),
            r@ == (StoreView {
                pending: Seq::empty(),
                cap: pending_cap as nat,
                inflight: 0,
                issued: Marks::none(),
                applied: Marks::none(),
                syncs: 0,
                syncs_by_strength: seq![0u32, 0u32, 0u32],
                evicts: 0,
            }),
    {
        let r = BoundedProtocolStore {
            pending: Vec::new(),
            pending_cap,
            inflight: 0,
            inflight_cap,
            revision: RevisionAssigner::new(),
            last_applied: MarkTable::new(),
            inflight_sync_intent: 0,
            inflight_sync_strength_counts: [0, 0, 0],
            inflight_continue_evict: 0,
        };
        assert(r.inflight_sync_strength_counts@ =~= seq![0u32, 0u32, 0u32]);
        r
    }

    /// An empty store of the usual size.
    pub fn default_caps() -> (r: Self)
        ensures
            r.wf(),
            r@.pending.len() == 0,
            r@.cap == MARKET_DATA_TRACK_PENDING_CAP,
            r@.inflight == 0,
            r@.issued == Marks::none(),
            r@.applied == Marks::none(),
            r@.syncs == 0,
            r@.syncs_by_strength == seq![0u32, 0u32, 0u32],
            r@.evicts == 0,
    {
        Self::new(MARKET_DATA_TRACK_PENDING_CAP, MARKET_DATA_TRACK_INFLIGHT_CAP)
    }

    /// How many commands wait.
    pub fn pending_len(&self) -> (n: usize)
        ensures
            n == self@.pending.len(),
    {
        self.pending.len()
    }

    /// The waiting commands, oldest first.
    pub fn pending(&self) -> (r: &[ImmutableTrackCommand])
        ensures
            r@ == self@.pending,
    {
        self.pending.as_slice()
    }

    /// How many commands are queued.
    pub fn inflight_len(&self) -> (n: usize)
        ensures
            n == self@.inflight,
    {
        self.inflight
    }

    /// Gives a command the next revision of its stream.
    pub fn wrap_command(&mut self, payload: TrackWorkerCommand) -> (cmd: ImmutableTrackCommand)
        requires
            old(self).wf(),
        ensures
            final(self).wf(),
            (cmd, final(self)@) == old(self)@.wrapped(payload),
            cmd.fits(),
    {
        let stream = stream_for_command(&payload);
        let mint = demand_mint_for_command(&payload);
        let revision = self.revision.next_revision(stream, mint);
        ImmutableTrackCommand::new(stream, revision, payload)
    }

    fn last_applied_for_cmd(&self, cmd: &ImmutableTrackCommand) -> (n: u64)
        requires
            self.wf(),
        ensures
            n == applied_up_to(self@.applied, *cmd),
    {
        self.last_applied.get(cmd.stream, demand_mint_for_command(&cmd.payload))
    }

    /// Whether the command is newer than all that has been applied in its place.
    pub fn is_applicable(&self, cmd: &ImmutableTrackCommand) -> (r: bool)
        requires
            self.wf(),
        ensures
            r == applicable(self@.applied, *cmd),
    {
        cmd.revision > self.last_applied_for_cmd(cmd)
    }

    fn raise(&mut self, stream: TrackCommandStream, mint: Option<Pubkey>, n: u64)
        requires
            old(self).wf(),
        ensures
            final(self).wf(),
            final(self)@ == (StoreView {
                applied: raised(old(self)@.applied, stream, mint, n),
                ..old(self)@
            }),
    {
        if n > self.last_applied.get(stream, mint) {
            self.last_applied.set(stream, mint, n);
        }
    }

    /// Notes that the command has been applied. What has been applied never goes back.
    pub fn mark_applied(&mut self, cmd: &ImmutableTrackCommand)
        requires
            old(self).wf(),
        ensures
            final(self).wf(),
            final(self)@ == old(self)@.marked(*cmd),
    {
        self.raise(cmd.stream, demand_mint_for_command(&cmd.payload), cmd.revision);
    }

    /// Whether the revision is newer than all that has been applied on the stream as a whole.
    pub fn is_applicable_stream(&self, stream: TrackCommandStream, revision: u64) -> (r: bool)
        requires
            self.wf(),
        ensures
            r == (revision > self@.applied.streams[stream.place()]),
    {
        revision > self.last_applied.get(stream, None)
    }

    /// Notes that the stream as a whole has been applied up to the revision.
    pub fn mark_applied_stream(&mut self, stream: TrackCommandStream, revision: u64)
        requires
            old(self).wf(),
        ensures
            final(self).wf(),
            final(self)@ == (StoreView {
                applied: raised(old(self)@.applied, stream, None, revision),
                ..old(self)@
            }),
    {
        self.raise(stream, None, revision);
    }

    /// Supersedes all tracker demand for the mint up to now.
    pub fn supersede_tracker_demand_for_mint(&mut self, mint: Pubkey)
        requires
            old(self).wf(),
        ensures
            final(self).wf(),
            final(self)@ == old(self)@.tracker_superseded(mint),
    {
        let sel = Selection::About { stream: TrackCommandStream::Tracker, mint };
        let mut watermark = self.last_applied.get(TrackCommandStream::Tracker, Some(mint));
        let issued = self.revision.last_issued_revision_for_mint(TrackCommandStream::Tracker, mint);
        if issued > watermark {
            watermark = issued;
        }
        let ghost floor = watermark;
        let mut i: usize = 0;
        while i < self.pending.len()
            invariant
                *self == *old(self),
                i <= self.pending@.len(),
                sel == (Selection::About { stream: TrackCommandStream::Tracker, mint }),
                watermark == newest(picked(self.pending@.take(i as int), sel), floor),
            decreases self.pending@.len() - i,
        {
            proof {
                let t = self.pending@.take(i + 1);
                assert(t.drop_last() =~= self.pending@.take(i as int));
                assert(t.last() == self.pending@[i as int]);
                let p = picked(t.drop_last(), sel);
                assert(p.push(t.last()).drop_last() =~= p);
            }
            if sel.selects(&self.pending[i]) && self.pending[i].revision > watermark {
                watermark = self.pending[i].revision;
            }
            i += 1;
        }
        assert(self.pending@.take(i as int) =~= self.pending@);
        self.raise(TrackCommandStream::Tracker, Some(mint), watermark);
    }

    /// Notes that wallet demand has been applied, which supersedes tracker demand for its mint.
    pub fn mark_applied_wallet_demand(&mut self, cmd: &ImmutableTrackCommand)
        requires
            old(self).wf(),
            cmd.stream is Wallet,
        ensures
            final(self).wf(),
            final(self)@ == old(self)@.wallet_marked(*cmd),
    {
        self.mark_applied(cmd);
        if let Some(mint) = demand_mint_for_command(&cmd.payload) {
            self.supersede_tracker_demand_for_mint(mint);
        }
    }

    /// Counts one more queued command.
    pub fn begin_inflight(&mut self)
        requires
            old(self).wf(),
        ensures
            final(self).wf(),
            final(self)@ == old(self)@.begun(),
    {
        self.inflight = self.inflight.saturating_add(1);
    }

    /// Counts one less queued command.
    pub fn end_inflight(&mut self)
        requires
            old(self).wf(),
        ensures
            final(self).wf(),
            final(self)@ == old(self)@.ended(),
    {
        self.inflight = self.inflight.saturating_sub(1);
    }

    /// Counts a command that has been queued, so that requests like it need not be.
    pub fn note_inflight_enqueued(&mut self, cmd: &ImmutableTrackCommand)
        requires
            old(self).wf(),
        ensures
            final(self).wf(),
            final(self)@ == old(self)@.queued(cmd.payload),
    {
        if let Some(strength) = sync_intent_strength(&cmd.payload) {
            self.inflight_sync_intent = self.inflight_sync_intent.saturating_add(1);
            let i = strength.index();
            self.inflight_sync_strength_counts[i] =
            self.inflight_sync_strength_counts[i].saturating_add(1);
        }
        if is_continue_evict(&cmd.payload) {
            self.inflight_continue_evict = self.inflight_continue_evict.saturating_add(1);
        }
    }

    /// Counts a command that has left the queue.
    pub fn note_inflight_dequeued(&mut self, cmd: &ImmutableTrackCommand)
        requires
            old(self).wf(),
        ensures
            final(self).wf(),
            final(self)@ == old(self)@.dequeued(cmd.payload),
    {
        if let Some(strength) = sync_intent_strength(&cmd.payload) {
            self.inflight_sync_intent = self.inflight_sync_intent.saturating_sub(1);
            let i = strength.index();
            self.inflight_sync_strength_counts[i] =
            self.inflight_sync_strength_counts[i].saturating_sub(1);
        }
        if is_continue_evict(&cmd.payload) {
            self.inflight_continue_evict = self.inflight_continue_evict.saturating_sub(1);
        }
    }

    fn inflight_sync_strength_max(&self) -> (r: Option<SyncIntentStrength>)
        ensures
            r == self@.queued_strength(),
    {
        if self.inflight_sync_strength_counts[2] > 0 {
            Some(SyncIntentStrength::ConfigChange)
        } else if self.inflight_sync_strength_counts[1] > 0 {
            Some(SyncIntentStrength::Push)
        } else if self.inflight_sync_strength_counts[0] > 0 {
            Some(SyncIntentStrength::Debounced)
        } else {
            None
        }
    }
}

/// What waits after `strength` has been merged into the waiting requests to synchronise,
/// under a new revision of the control stream.
pub open spec fn sync_merged(
    pending: Seq<ImmutableTrackCommand>,
    strength: SyncIntentStrength,
    revision: u64,
) -> Seq<ImmutableTrackCommand> {
    let syncs = picked(pending, Selection::Sync);
    left(pending, Selection::Sync).push(
        ImmutableTrackCommand {
            stream: TrackCommandStream::Control,
            revision: newest(syncs, revision),
            payload: strongest(syncs, strength).intent(),
        },
    )
}

/// The waiting commands with the request to go on evicting renewed.
pub open spec fn evict_renewed(pending: Seq<ImmutableTrackCommand>, revision: u64) -> Seq<
    ImmutableTrackCommand,
> {
    pending.map_values(
        |c: ImmutableTrackCommand|
            if c.payload is ContinueGeyserEvict {
                ImmutableTrackCommand {
                    stream: TrackCommandStream::Control,
                    revision: if c.revision > revision {
                        c.revision
                    } else {
                        revision
                    },
                    payload: TrackWorkerCommand::ContinueGeyserEvict,
                }
            } else {
                c
            },
    )
}

impl StoreView {
    /// The next revision of the control stream.
    pub open spec fn next_control(self) -> u64 {
        worker_commands::next(self.issued.of(TrackCommandStream::Control, None))
    }

    /// With a revision of the control stream given out, and `pending` waiting.
    pub open spec fn renewed(self, pending: Seq<ImmutableTrackCommand>) -> StoreView {
        StoreView {
            pending,
            issued: self.issued.set_to(TrackCommandStream::Control, None, self.next_control()),
            ..self
        }
    }

    /// Whether a command need not be queued, and the state after asking. A request to
    /// synchronise is covered by a queued one as strong; where only weaker ones are queued it
    /// waits; where one waits it is merged with it. A request to go on evicting is covered by
    /// a queued one, or renews one that waits.
    pub open spec fn deduped(self, job: TrackWorkerCommand) -> (bool, StoreView) {
        match job.strength() {
            Some(strength) => {
                let queued = match self.queued_strength() {
                    Some(q) => q,
                    None => SyncIntentStrength::Debounced,
                };
                if self.syncs > 0 && strength.level() <= queued.level() {
                    (true, self)
                } else if any(self.pending, Selection::Sync) {
                    (true, self.renewed(sync_merged(self.pending, strength, self.next_control())))
                } else if self.syncs > 0 {
                    (
                        true,
                        self.renewed(
                            with_room(self.pending, self.cap).push(
                                ImmutableTrackCommand {
                                    stream: TrackCommandStream::Control,
                                    revision: self.next_control(),
                                    payload: strength.intent(),
                                },
                            ),
                        ),
                    )
                } else {
                    (false, self)
                }
            },
            None => if job is ContinueGeyserEvict {
                if self.evicts > 0 {
                    (true, self)
                } else if any(self.pending, Selection::Evict) {
                    (true, self.renewed(evict_renewed(self.pending, self.next_control())))
                } else {
                    (false, self)
                }
            } else {
                (false, self)
            },
        }
    }
}

/// Moves the momentum updates out of the commands.
fn into_momentum_updates(commands: Vec<ImmutableTrackCommand>) -> (r: Vec<
    MomentumActivePoolsUpdate,
>)
    requires
        forall|i: int|
            0 <= i < commands@.len() ==> (#[trigger] commands@[i]).payload is ApplyMomentumActivePools,
    ensures
        r@ == commands@.map_values(
            |c: ImmutableTrackCommand| c.payload->ApplyMomentumActivePools_0,
        ),
{
    let mut commands = commands;
    let ghost all = commands@;
    let ghost mut seen: int = 0;
    let mut updates: Vec<MomentumActivePoolsUpdate> = Vec::new();
    assert(all.skip(0) =~= all);
    while commands.len() > 0
        invariant
            0 <= seen <= all.len(),
            commands@ == all.skip(seen),
            updates@.len() == seen,
            forall|i: int|
                0 <= i < all.len() ==> (#[trigger] all[i]).payload is ApplyMomentumActivePools,
            forall|i: int|
                0 <= i < seen ==> #[trigger] updates@[i] == all[i].payload->ApplyMomentumActivePools_0,
        decreases commands@.len(),
    {
        let c = commands.remove(0);
        proof {
            assert(c == all[seen]);
            assert(all.skip(seen).remove(0) =~= all.skip(seen + 1));
        }
        if let TrackWorkerCommand::ApplyMomentumActivePools(update) = c.payload {
            updates.push(update);
        }
        proof {
            seen = seen + 1;
        }
    }
    assert(updates@ =~= all.map_values(
        |c: ImmutableTrackCommand| c.payload->ApplyMomentumActivePools_0,
    ));
    updates
}

/// Moves the arbitrage updates out of the commands.
fn into_arb_updates(commands: Vec<ImmutableTrackCommand>) -> (r: Vec<ArbTrackRequestsUpdate>)
    requires
        forall|i: int|
            0 <= i < commands@.len() ==> (#[trigger] commands@[i]).payload is ApplyArbTrackRequests,
    ensures
        r@ == commands@.map_values(
            |c: ImmutableTrackCommand| c.payload->ApplyArbTrackRequests_0,
        ),
{
    let mut commands = commands;
    let ghost all = commands@;
    let ghost mut seen: int = 0;
    let mut updates: Vec<ArbTrackRequestsUpdate> = Vec::new();
    assert(all.skip(0) =~= all);
    while commands.len() > 0
        invariant
            0 <= seen <= all.len(),
            commands@ == all.skip(seen),
            updates@.len() == seen,
            forall|i: int|
                0 <= i < all.len() ==> (#[trigger] all[i]).payload is ApplyArbTrackRequests,
            forall|i: int|
                0 <= i < seen ==> #[trigger] updates@[i] == all[i].payload->ApplyArbTrackRequests_0,
        decreases commands@.len(),
    {
        let c = commands.remove(0);
        proof {
            assert(c == all[seen]);
            assert(all.skip(seen).remove(0) =~= all.skip(seen + 1));
        }
        if let TrackWorkerCommand::ApplyArbTrackRequests(update) = c.payload {
            updates.push(update);
        }
        proof {
            seen = seen + 1;
        }
    }
    assert(updates@ =~= all.map_values(
        |c: ImmutableTrackCommand| c.payload->ApplyArbTrackRequests_0,
    ));
    updates
}

impl BoundedProtocolStore {
    /// Merges a request to synchronise into those that wait.
    fn merge_sync_into_pending(&mut self, strength: SyncIntentStrength)
        requires
            old(self).wf(),
            any(old(self)@.pending, Selection::Sync),
        ensures
            final(self).wf(),
            final(self)@ == old(self)@.renewed(
                sync_merged(old(self)@.pending, strength, old(self)@.next_control()),
            ),
    {
        let revision = self.revision.next_revision(TrackCommandStream::Control, None);
        proof {
            let p = self.pending@;
            let cap = self.pending_cap as nat;
            lemma_left_in_bounds(p, cap, Selection::Sync);
            lemma_left(p, Selection::Sync);
            let l = left(p, Selection::Sync);
            assert(!any(l, Selection::Sync)) by {
                if any(l, Selection::Sync) {
                    let i = choose|i: int| 0 <= i < l.len() && Selection::Sync.takes(#[trigger] l[i]);
                }
            }
            assert(with_room(l, cap) == l);
            let c = sync_merged(p, strength, revision).last();
            lemma_push_in_bounds(l, cap, c);
        }
        let syncs = extract(&mut self.pending, &Selection::Sync);
        let newest = newest_revision(&syncs, revision);
        let merged = strongest_intent(&syncs, strength);
        self.pending.push(
            ImmutableTrackCommand::new(TrackCommandStream::Control, newest, merged.command()),
        );
    }

    /// Keeps a command, the oldest making room where there is none.
    fn place(&mut self, cmd: ImmutableTrackCommand)
        requires
            old(self).wf(),
            cmd.fits(),
            Selection::Sync.takes(cmd) ==> !any(old(self)@.pending, Selection::Sync),
            Selection::Evict.takes(cmd) ==> !any(old(self)@.pending, Selection::Evict),
        ensures
            final(self).wf(),
            final(self)@ == (StoreView {
                pending: with_room(old(self)@.pending, old(self)@.cap).push(cmd),
                ..old(self)@
            }),
    {
        proof {
            lemma_push_in_bounds(self.pending@, self.pending_cap as nat, cmd);
        }
        if self.pending.len() >= self.pending_cap && self.pending.len() > 0 {
            self.pending.remove(0);
        }
        self.pending.push(cmd);
    }

    fn stage_stronger_sync_intent_while_inflight(&mut self, strength: SyncIntentStrength)
        requires
            old(self).wf(),
        ensures
            final(self).wf(),
            final(self)@ == if any(old(self)@.pending, Selection::Sync) {
                old(self)@.renewed(
                    sync_merged(old(self)@.pending, strength, old(self)@.next_control()),
                )
            } else {
                old(self)@.renewed(
                    with_room(old(self)@.pending, old(self)@.cap).push(
                        ImmutableTrackCommand {
                            stream: TrackCommandStream::Control,
                            revision: old(self)@.next_control(),
                            payload: strength.intent(),
                        },
                    ),
                )
            },
    {
        if has_any(&self.pending, &Selection::Sync) {
            self.merge_sync_into_pending(strength);
            return;
        }
        let revision = self.revision.next_revision(TrackCommandStream::Control, None);
        self.place(
            ImmutableTrackCommand::new(TrackCommandStream::Control, revision, strength.command()),
        );
    }

    /// Whether a command need not be queued because one like it is queued or waits. Its
    /// demand is then preserved without a place in the queue.
    pub fn try_dedupe_enqueue(&mut self, job: &TrackWorkerCommand) -> (r: bool)
        requires
            old(self).wf(),
        ensures
            final(self).wf(),
            (r, final(self)@) == old(self)@.deduped(*job),
    {
        if let Some(strength) = sync_intent_strength(job) {
            if self.inflight_sync_intent > 0 {
                let queued = match self.inflight_sync_strength_max() {
                    Some(queued) => queued,
                    None => SyncIntentStrength::Debounced,
                };
                if strength.index() <= queued.index() {
                    return true;
                }
                self.stage_stronger_sync_intent_while_inflight(strength);
                return true;
            }
            if has_any(&self.pending, &Selection::Sync) {
                self.merge_sync_into_pending(strength);
                return true;
            }
            return false;
        }
        if is_continue_evict(job) {
            if self.inflight_continue_evict > 0 {
                return true;
            }
            let mut i: usize = 0;
            while i < self.pending.len()
                invariant
                    *self == *old(self),
                    self.wf(),
                    i <= self.pending@.len(),
                    forall|j: int|
                        0 <= j < i ==> !Selection::Evict.takes(#[trigger] self.pending@[j]),
                    job is ContinueGeyserEvict,
                    self.inflight_continue_evict == 0,
                decreases self.pending@.len() - i,
            {
                if is_continue_evict(&self.pending[i].payload) {
                    let ghost before = self.pending@;
                    assert(Selection::Evict.takes(before[i as int]));
                    let next = self.revision.next_revision(TrackCommandStream::Control, None);
                    let waiting = self.pending[i].revision;
                    let revision = if waiting > next {
                        waiting
                    } else {
                        next
                    };
                    self.pending.set(
                        i,
                        ImmutableTrackCommand::new(
                            TrackCommandStream::Control,
                            revision,
                            TrackWorkerCommand::ContinueGeyserEvict,
                        ),
                    );
                    proof {
                        let after = evict_renewed(before, next);
                        assert forall|j: int| 0 <= j < before.len() && j != i implies (
                        #[trigger] before[j]).payload !is ContinueGeyserEvict by {
                            if Selection::Evict.takes(before[j]) {
                                assert(Selection::Evict.takes(before[i as int]));
                            }
                        }
                        assert(self.pending@ =~= after);
                        assert forall|a: int, b: int|
                            0 <= a < after.len() && 0 <= b < after.len() && Selection::Sync.takes(
                                #[trigger] after[a],
                            ) && Selection::Sync.takes(#[trigger] after[b]) implies a == b by {
                            assert(after[a] == before[a]);
                            assert(after[b] == before[b]);
                        }
                        assert forall|a: int, b: int|
                            0 <= a < after.len() && 0 <= b < after.len() && Selection::Evict.takes(
                                #[trigger] after[a],
                            ) && Selection::Evict.takes(#[trigger] after[b]) implies a == b by {
                            assert(a != i ==> before[a].payload !is ContinueGeyserEvict);
                            assert(b != i ==> before[b].payload !is ContinueGeyserEvict);
                        }
                        assert forall|a: int| 0 <= a < after.len() implies (
                        #[trigger] after[a]).fits() by {
                            assert(before[a].fits());
                        }
                    }
                    return true;
                }
                i += 1;
            }
            return false;
        }
        false
    }

    /// Whether a command is a request to go on evicting that says nothing new.
    fn has_request_as_new(&self, cmd: &ImmutableTrackCommand) -> (r: bool)
        ensures
            r == says_nothing_new(self@.pending, *cmd),
    {
        if !is_continue_evict(&cmd.payload) {
            return false;
        }
        let mut i: usize = 0;
        while i < self.pending.len()
            invariant
                i <= self.pending@.len(),
                forall|j: int|
                    0 <= j < i && (#[trigger] self.pending@[j]).payload is ContinueGeyserEvict
                        ==> cmd.revision > self.pending@[j].revision,
                cmd.payload is ContinueGeyserEvict,
            decreases self.pending@.len() - i,
        {
            if is_continue_evict(&self.pending[i].payload) && cmd.revision
                <= self.pending[i].revision {
                return true;
            }
            i += 1;
        }
        false
    }

    /// Takes out the older updates of the feed of a command and puts the command behind them.
    fn take_with_older(&mut self, cmd: ImmutableTrackCommand) -> (r: Vec<ImmutableTrackCommand>)
        requires
            old(self).wf(),
            cmd.fits(),
        ensures
            final(self).wf(),
            ({
                let sel = Selection::Older { stream: cmd.stream, below: cmd.revision };
                &&& final(self)@ == (StoreView {
                    pending: left(old(self)@.pending, sel),
                    ..old(self)@
                })
                &&& r@ == picked(old(self)@.pending, sel).push(cmd)
            }),
            forall|i: int|
                0 <= i < r@.len() ==> (#[trigger] r@[i]).stream == cmd.stream && r@[i].fits(),
    {
        let ghost before = self.pending@;
        let sel = Selection::Older { stream: cmd.stream, below: cmd.revision };
        proof {
            lemma_left_in_bounds(before, self.pending_cap as nat, sel);
            lemma_left(before, sel);
        }
        let mut gathered = extract(&mut self.pending, &sel);
        let ghost older = gathered@;
        gathered.push(cmd);
        proof {
            assert forall|i: int| 0 <= i < gathered@.len() implies (
            #[trigger] gathered@[i]).stream == cmd.stream && gathered@[i].fits() by {
                if i < older.len() {
                    assert(gathered@[i] == older[i]);
                    assert(before.contains(older[i]));
                    assert(sel.takes(older[i]));
                }
            }
        }
        gathered
    }

    /// Merges a command with those that wait: what it replaces is taken out, and the result
    /// says all that they and it say. A request to go on evicting takes out no waiting one that
    /// is as new.
    fn coalesce_with_pending(&mut self, cmd: ImmutableTrackCommand) -> (out: ImmutableTrackCommand)
        requires
            old(self).wf(),
            cmd.fits(),
        ensures
            final(self).wf(),
            final(self)@ == (StoreView {
                pending: if says_nothing_new(old(self)@.pending, cmd) {
                    old(self)@.pending
                } else {
                    kept(old(self)@.pending, cmd)
                },
                ..old(self)@
            }),
            stands_for(old(self)@.pending, cmd, out),
            out.fits(),
    {
        let ghost before = self.pending@;
        let ghost cap = self.pending_cap as nat;
        if let Some(strength) = sync_intent_strength(&cmd.payload) {
            proof {
                lemma_left_in_bounds(before, cap, Selection::Sync);
                lemma_left(before, Selection::Sync);
            }
            let syncs = extract(&mut self.pending, &Selection::Sync);
            if syncs.len() > 0 {
                let newest = newest_revision(&syncs, cmd.revision);
                let merged = strongest_intent(&syncs, strength);
                return ImmutableTrackCommand::new(
                    TrackCommandStream::Control,
                    newest,
                    merged.command(),
                );
            }
            return cmd;
        }
        if is_continue_evict(&cmd.payload) {
            if self.has_request_as_new(&cmd) {
                return cmd;
            }
            proof {
                lemma_left_in_bounds(before, cap, Selection::Evict);
            }
            let _ = extract(&mut self.pending, &Selection::Evict);
            return cmd;
        }
        if stream_uses_per_mint_revision(cmd.stream) {
            if let Some(mint) = demand_mint_for_command(&cmd.payload) {
                let sel = Selection::Demand { stream: cmd.stream, mint, below: cmd.revision };
                proof {
                    lemma_left_in_bounds(before, cap, sel);
                }
                let _ = extract(&mut self.pending, &sel);
            }
            return cmd;
        }
        let stream = cmd.stream;
        let revision = cmd.revision;
        let ghost older = picked(before, Selection::Older { stream, below: revision });
        match stream {
            TrackCommandStream::Momentum => {
                let mut gathered = self.take_with_older(cmd);
                if gathered.len() == 1 {
                    return gathered.remove(0);
                }
                let updates = into_momentum_updates(gathered);
                assert(updates@ == momentum_updates(older, cmd));
                let merged = merge_momentum_active_pools_updates(updates.as_slice()).unwrap();
                ImmutableTrackCommand::new(
                    stream,
                    revision,
                    TrackWorkerCommand::ApplyMomentumActivePools(merged),
                )
            },
            TrackCommandStream::Arb => {
                let mut gathered = self.take_with_older(cmd);
                if gathered.len() == 1 {
                    return gathered.remove(0);
                }
                let updates = into_arb_updates(gathered);
                assert(updates@ == arb_updates(older, cmd));
                let merged = merge_arb_track_requests_updates(updates.as_slice()).unwrap();
                ImmutableTrackCommand::new(
                    stream,
                    revision,
                    TrackWorkerCommand::ApplyArbTrackRequests(merged),
                )
            },
            _ => cmd,
        }
    }
}

impl BoundedProtocolStore {
    /// Keeps a command for replay, because the queue is full or the command was refused for
    /// now. Where nothing more can wait, the oldest command makes room.
    pub fn stage_on_queue_full(&mut self, cmd: ImmutableTrackCommand) -> (r: StageResult)
        requires
            old(self).wf(),
            cmd.fits(),
        ensures
            final(self).wf(),
            r == StageResult::Staged,
            is_staged(old(self)@.pending, old(self)@.cap, cmd, final(self)@.pending),
            final(self)@ == (StoreView { pending: final(self)@.pending, ..old(self)@ }),
    {
        let ghost before = self.pending@;
        if self.has_request_as_new(&cmd) {
            return StageResult::Staged;
        }
        let ghost the_cmd = cmd;
        let out = self.coalesce_with_pending(cmd);
        proof {
            let k = kept(before, the_cmd);
            if the_cmd.payload.strength() is Some {
                lemma_left(before, Selection::Sync);
                assert(!any(k, Selection::Sync));
            } else if the_cmd.payload is ContinueGeyserEvict {
                lemma_left(before, Selection::Evict);
                assert(!any(k, Selection::Evict));
            }
            let r = with_room(k, self@.cap);
            assert(r.push(out).drop_last() =~= r);
        }
        self.place(out);
        StageResult::Staged
    }

    /// Takes out all that waits and returns what is still applicable, stream by stream as
    /// they first appear and within a stream by revision.
    pub fn take_applicable_pending_sorted(&mut self) -> (r: Vec<ImmutableTrackCommand>)
        requires
            old(self).wf(),
        ensures
            final(self).wf(),
            r@ == replayed(old(self)@.pending, old(self)@.applied),
            final(self)@ == (StoreView { pending: Seq::empty(), ..old(self)@ }),
    {
        let ghost all = self.pending@;
        let ghost applied = self.last_applied@;
        let mut drained: Vec<ImmutableTrackCommand> = Vec::new();
        std::mem::swap(&mut drained, &mut self.pending);
        let mut streams: Vec<TrackCommandStream> = Vec::new();
        let mut i: usize = 0;
        while i < drained.len()
            invariant
                drained@ == all,
                i <= all.len(),
                streams@ == streams_seen(all.take(i as int)),
            decreases all.len() - i,
        {
            let stream = drained[i].stream;
            let mut seen = false;
            let mut k: usize = 0;
            while k < streams.len()
                invariant
                    k <= streams@.len(),
                    seen == exists|j: int| 0 <= j < k && #[trigger] streams@[j] == stream,
                decreases streams@.len() - k,
            {
                if streams[k] == stream {
                    seen = true;
                    assert(streams@[k as int] == stream);
                }
                k += 1;
            }
            proof {
                let t = all.take(i + 1);
                assert(t.drop_last() =~= all.take(i as int));
                assert(t.last() == all[i as int]);
                assert(seen == streams@.contains(stream));
            }
            if !seen {
                streams.push(stream);
            }
            i += 1;
        }
        assert(all.take(i as int) =~= all);
        let mut out: Vec<ImmutableTrackCommand> = Vec::new();
        let mut n: usize = 0;
        assert(streams@.take(0) =~= Seq::empty());
        proof {
            lemma_streams_distinct(all);
        }
        while n < streams.len()
            invariant
                self.wf(),
                self.last_applied@ == applied,
                self.pending@.len() == 0,
                self@ == (StoreView { pending: Seq::empty(), ..old(self)@ }),
                n <= streams@.len(),
                streams@ == streams_seen(all),
                streams@.no_duplicates(),
                forall|j: int|
                    n <= j < streams@.len() ==> picked(
                        drained@,
                        Selection::Of { stream: #[trigger] streams@[j] },
                    ) == picked(all, Selection::Of { stream: streams@[j] }),
                out@ == replayed_of(all, applied, streams@.take(n as int)),
            decreases streams@.len() - n,
        {
            let sel = Selection::Of { stream: streams[n] };
            let ghost rest = drained@;
            let ghost done = out@;
            let mut commands = sort_by_revision(extract(&mut drained, &sel));
            let ghost sorted = commands@;
            assert(sorted == by_revision(picked(all, sel)));
            let ghost mut seen: int = 0;
            assert(sorted.take(0) =~= Seq::empty());
            assert(sorted.skip(0) =~= sorted);
            assert(out@ =~= done + fresh(sorted.take(0), applied));
            while commands.len() > 0
                invariant
                    self.wf(),
                    self.last_applied@ == applied,
                    0 <= seen <= sorted.len(),
                    commands@ == sorted.skip(seen),
                    out@ == done + fresh(sorted.take(seen), applied),
                decreases commands@.len(),
            {
                let c = commands.remove(0);
                proof {
                    let t = sorted.take(seen + 1);
                    assert(t.drop_last() =~= sorted.take(seen));
                    assert(t.last() == c);
                    assert(sorted.skip(seen).remove(0) =~= sorted.skip(seen + 1));
                    if applicable(applied, c) {
                        assert(done + fresh(t, applied) =~= (done + fresh(
                            sorted.take(seen),
                            applied,
                        )).push(c));
                    }
                }
                if self.is_applicable(&c) {
                    out.push(c);
                }
                proof {
                    seen = seen + 1;
                }
            }
            proof {
                assert(sorted.take(seen) =~= sorted);
                let t = streams@.take(n + 1);
                assert(t.drop_last() =~= streams@.take(n as int));
                assert(t.last() == streams@[n as int]);
                assert forall|j: int| n + 1 <= j < streams@.len() implies picked(
                    drained@,
                    Selection::Of { stream: #[trigger] streams@[j] },
                ) == picked(all, Selection::Of { stream: streams@[j] }) by {
                    assert(streams@[j] != streams@[n as int]);
                    lemma_picked_of_left(rest, streams@[n as int], streams@[j]);
                }
            }
            n += 1;
        }
        assert(streams@.take(n as int) =~= streams@);
        out
    }
}

proof fn lemma_streams_distinct(s: Seq<ImmutableTrackCommand>)
    ensures
        streams_seen(s).no_duplicates(),
    decreases s.len(),
{
    if s.len() > 0 {
        lemma_streams_distinct(s.drop_last());
    }
}

/// Taking one stream out leaves the commands of another.
proof fn lemma_picked_of_left(
    s: Seq<ImmutableTrackCommand>,
    gone: TrackCommandStream,
    stays: TrackCommandStream,
)
    requires
        gone != stays,
    ensures
        picked(left(s, Selection::Of { stream: gone }), Selection::Of { stream: stays }) == picked(
            s,
            Selection::Of { stream: stays },
        ),
    decreases s.len(),
{
    if s.len() > 0 {
        lemma_picked_of_left(s.drop_last(), gone, stays);
        let sel = Selection::Of { stream: gone };
        if !sel.takes(s.last()) {
            let l = left(s, sel);
            assert(l.drop_last() =~= left(s.drop_last(), sel));
        }
    }
}

/// Once a command has been applied, neither it nor anything older in its place is applicable.
pub proof fn applied_commands_do_not_replay(
    v: StoreView,
    cmd: ImmutableTrackCommand,
    other: ImmutableTrackCommand,
)
    requires
        v.applied.streams.len() == 5,
        other.stream == cmd.stream,
        other.stream.per_mint() ==> other.payload.demand_mint() == cmd.payload.demand_mint(),
        other.revision <= cmd.revision,
    ensures
        !applicable(v.marked(cmd).applied, other),
{
}

/// What has been applied never goes back, and a command moves only its own stream and, where
/// the stream counts by mint, its own mint.
pub proof fn applying_moves_only_its_own_place(
    v: StoreView,
    cmd: ImmutableTrackCommand,
    stream: TrackCommandStream,
    mint: Option<Pubkey>,
)
    requires
        v.applied.streams.len() == 5,
    ensures
        v.marked(cmd).applied.of(stream, mint) >= v.applied.of(stream, mint),
        stream != cmd.stream || (stream.per_mint() && mint != cmd.payload.demand_mint())
            ==> v.marked(cmd).applied.of(stream, mint) == v.applied.of(stream, mint),
{
}

/// A command just given its revision is applicable, as long as nothing has been applied that
/// was not given out and revisions have not run out.
pub proof fn new_command_is_applicable(v: StoreView, payload: TrackWorkerCommand)
    requires
        v.applied.of(payload.stream(), payload.demand_mint()) <= v.issued.of(
            payload.stream(),
            payload.demand_mint(),
        ) < u64::MAX,
    ensures
        applicable(v.wrapped(payload).1.applied, v.wrapped(payload).0),
{
}

/// Of two commands given their revisions one after the other in the same place, the later one
/// has the greater revision, until revisions run out.
pub proof fn revisions_increase(
    v: StoreView,
    earlier: TrackWorkerCommand,
    later: TrackWorkerCommand,
)
    requires
        v.issued.streams.len() == 5,
        later.stream() == earlier.stream(),
        later.stream().per_mint() ==> later.demand_mint() == earlier.demand_mint(),
        v.wrapped(earlier).0.revision < u64::MAX,
    ensures
        v.wrapped(earlier).0.revision < v.wrapped(earlier).1.wrapped(later).0.revision,
{
}

proof fn lemma_newest(s: Seq<ImmutableTrackCommand>, floor: u64)
    ensures
        newest(s, floor) >= floor,
        forall|i: int| 0 <= i < s.len() ==> (#[trigger] s[i]).revision <= newest(s, floor),
    decreases s.len(),
{
    if s.len() > 0 {
        let t = s.drop_last();
        lemma_newest(t, floor);
        assert forall|i: int| 0 <= i < s.len() implies (#[trigger] s[i]).revision <= newest(
            s,
            floor,
        ) by {
            if i < t.len() {
                assert(t[i] == s[i]);
            }
        }
    }
}

/// Wallet demand for a mint, once applied, supersedes all tracker demand for the mint that
/// waits or has been given out.
pub proof fn wallet_demand_supersedes_tracker_demand(
    v: StoreView,
    wallet: ImmutableTrackCommand,
    tracker: ImmutableTrackCommand,
)
    requires
        wallet.stream is Wallet,
        wallet.payload.demand_mint() is Some,
        tracker.stream is Tracker,
        tracker.payload.demand_mint() == wallet.payload.demand_mint(),
        v.pending.contains(tracker) || tracker.revision <= v.issued.of(
            TrackCommandStream::Tracker,
            tracker.payload.demand_mint(),
        ),
    ensures
        !applicable(v.wallet_marked(wallet).applied, tracker),
{
    let mint = wallet.payload.demand_mint()->0;
    let w = v.marked(wallet);
    let sel = Selection::About { stream: TrackCommandStream::Tracker, mint };
    let mine = picked(w.pending, sel);
    lemma_left(w.pending, sel);
    let applied = w.applied.of(TrackCommandStream::Tracker, Some(mint));
    let issued = w.issued.of(TrackCommandStream::Tracker, Some(mint));
    lemma_newest(
        mine,
        if issued > applied {
            issued
        } else {
            applied
        },
    );
    if v.pending.contains(tracker) {
        let i = choose|i: int| 0 <= i < v.pending.len() && v.pending[i] == tracker;
        assert(sel.takes(w.pending[i]));
        assert(mine.contains(tracker));
        let j = choose|j: int| 0 <= j < mine.len() && mine[j] == tracker;
        assert(mine[j].revision <= w.tracker_demand(mint));
    }
}

proof fn lemma_strongest(s: Seq<ImmutableTrackCommand>, base: SyncIntentStrength)
    ensures
        strongest(s, base).level() >= base.level(),
        forall|i: int|
            0 <= i < s.len() ==> ((#[trigger] s[i]).payload.strength() matches Some(strength)
                ==> strength.level() <= strongest(s, base).level()),
    decreases s.len(),
{
    if s.len() > 0 {
        let t = s.drop_last();
        lemma_strongest(t, base);
        assert forall|i: int| 0 <= i < s.len() implies ((
        #[trigger] s[i]).payload.strength() matches Some(strength) ==> strength.level()
            <= strongest(s, base).level()) by {
            if i < t.len() {
                assert(t[i] == s[i]);
            }
        }
    }
}

/// A request to synchronise that waits is as strong, and as new, as the one that was kept and
/// as each that waited before.
pub proof fn merged_sync_is_the_strongest(
    before: Seq<ImmutableTrackCommand>,
    cap: nat,
    cmd: ImmutableTrackCommand,
    after: Seq<ImmutableTrackCommand>,
)
    requires
        cmd.payload.strength() is Some,
        is_staged(before, cap, cmd, after),
    ensures
        after.last().payload.strength() matches Some(out) && {
            &&& out.level() >= cmd.payload.strength()->0.level()
            &&& after.last().revision >= cmd.revision
            &&& forall|i: int|
                0 <= i < before.len() ==> ((#[trigger] before[i]).payload.strength() matches Some(
                    was,
                ) ==> was.level() <= out.level() && before[i].revision <= after.last().revision)
        },
{
    let syncs = picked(before, Selection::Sync);
    let base = cmd.payload.strength()->0;
    lemma_left(before, Selection::Sync);
    lemma_strongest(syncs, base);
    lemma_newest(syncs, cmd.revision);
    assert forall|i: int| 0 <= i < before.len() implies ((
    #[trigger] before[i]).payload.strength() matches Some(was) ==> was.level()
        <= after.last().payload.strength()->0.level() && before[i].revision
        <= after.last().revision) by {
        if Selection::Sync.takes(before[i]) {
            assert(any(before, Selection::Sync));
            assert(syncs.contains(before[i]));
            let j = choose|j: int| 0 <= j < syncs.len() && syncs[j] == before[i];
            assert(syncs[j].payload.strength() is Some);
        }
    }
}

/// Of demand for one mint on one stream the latest wins: once a command for it is kept,
/// nothing older for it waits.
pub proof fn latest_demand_wins(
    before: Seq<ImmutableTrackCommand>,
    cap: nat,
    cmd: ImmutableTrackCommand,
    after: Seq<ImmutableTrackCommand>,
    i: int,
)
    requires
        cmd.stream.per_mint(),
        cmd.payload.demand_mint() is Some,
        is_staged(before, cap, cmd, after),
        0 <= i < after.len(),
        after[i].stream == cmd.stream,
        after[i].payload.demand_mint() == cmd.payload.demand_mint(),
    ensures
        after.last() == cmd,
        after[i].revision >= cmd.revision,
{
    let sel = Selection::Demand {
        stream: cmd.stream,
        mint: cmd.payload.demand_mint()->0,
        below: cmd.revision,
    };
    lemma_left(before, sel);
    let k = left(before, sel);
    if i < after.len() - 1 {
        assert(after.drop_last()[i] == after[i]);
        if with_room(k, cap).len() == k.len() {
            assert(k[i] == after[i]);
        } else {
            assert(k[i + 1] == after[i]);
        }
    }
}

/// Only the oldest waiting command ever makes room: whatever `cmd` does not replace still
/// waits after it has been kept, except the first where nothing more can wait.
pub proof fn only_the_oldest_makes_room(
    before: Seq<ImmutableTrackCommand>,
    cap: nat,
    cmd: ImmutableTrackCommand,
    after: Seq<ImmutableTrackCommand>,
    i: int,
)
    requires
        is_staged(before, cap, cmd, after),
        !says_nothing_new(before, cmd),
        0 <= i < kept(before, cmd).len(),
        i > 0 || kept(before, cmd).len() < cap,
    ensures
        after.contains(kept(before, cmd)[i]),
{
    let k = kept(before, cmd);
    let r = with_room(k, cap);
    assert(after.drop_last() == r);
    if r.len() == k.len() {
        assert(r[i] == k[i]);
        assert(after[i] == k[i]);
    } else {
        assert(r[i - 1] == k[i]);
        assert(after[i - 1] == k[i]);
    }
}

/// Momentum updates that wait are not lost to a newer one: what is kept has the effect of all
/// of them in turn.
pub proof fn momentum_demand_survives_merging(
    before: Seq<ImmutableTrackCommand>,
    cap: nat,
    cmd: ImmutableTrackCommand,
    after: Seq<ImmutableTrackCommand>,
    pools: Set<coalesce::PoolKey>,
)
    requires
        cmd.fits(),
        cmd.stream is Momentum,
        is_staged(before, cap, cmd, after),
    ensures
        ({
            let older = picked(
                before,
                Selection::Older { stream: cmd.stream, below: cmd.revision },
            );
            &&& after.last().payload is ApplyMomentumActivePools
            &&& coalesce::applied(
                pools,
                after.last().payload->ApplyMomentumActivePools_0@,
            ) == coalesce::applied_in_turn(
                pools,
                coalesce::views(momentum_updates(older, cmd)),
            )
        }),
{
    let older = picked(before, Selection::Older { stream: cmd.stream, below: cmd.revision });
    let updates = coalesce::views(momentum_updates(older, cmd));
    if older.len() > 0 {
        coalesce::merge_has_the_effect_of_the_burst(
            after.last().payload->ApplyMomentumActivePools_0@,
            updates,
            pools,
        );
    } else {
        assert(updates =~= seq![cmd.payload->ApplyMomentumActivePools_0@]);
        assert(updates.drop_last() =~= Seq::empty());
        reveal_with_fuel(coalesce::applied_in_turn, 2);
    }
}

/// Arbitrage updates that wait are not lost to a newer one: what is kept has the effect of
/// all of them in turn.
pub proof fn arb_demand_survives_merging(
    before: Seq<ImmutableTrackCommand>,
    cap: nat,
    cmd: ImmutableTrackCommand,
    after: Seq<ImmutableTrackCommand>,
    pools: Set<coalesce::PoolKey>,
)
    requires
        cmd.fits(),
        cmd.stream is Arb,
        is_staged(before, cap, cmd, after),
    ensures
        ({
            let older = picked(
                before,
                Selection::Older { stream: cmd.stream, below: cmd.revision },
            );
            &&& after.last().payload is ApplyArbTrackRequests
            &&& coalesce::applied(
                pools,
                after.last().payload->ApplyArbTrackRequests_0@,
            ) == coalesce::applied_in_turn(pools, coalesce::views(arb_updates(older, cmd)))
        }),
{
    let older = picked(before, Selection::Older { stream: cmd.stream, below: cmd.revision });
    let updates = coalesce::views(arb_updates(older, cmd));
    if older.len() > 0 {
        coalesce::merge_has_the_effect_of_the_burst(
            after.last().payload->ApplyArbTrackRequests_0@,
            updates,
            pools,
        );
    } else {
        assert(updates =~= seq![cmd.payload->ApplyArbTrackRequests_0@]);
        assert(updates.drop_last() =~= Seq::empty());
        reveal_with_fuel(coalesce::applied_in_turn, 2);
    }
}

/// `x` is of the kind that keeping `cmd` replaces: one request to synchronise another, a request
/// to go on evicting an older one, demand for a mint older demand for it on the same stream, an
/// update of a feed older updates of the feed.
pub open spec fn is_like(x: ImmutableTrackCommand, cmd: ImmutableTrackCommand) -> bool {
    if cmd.payload.strength() is Some {
        x.payload.strength() is Some
    } else if cmd.payload is ContinueGeyserEvict {
        x.payload is ContinueGeyserEvict && x.revision < cmd.revision
    } else {
        match cmd.stream {
            TrackCommandStream::Wallet | TrackCommandStream::Tracker => {
                &&& x.stream == cmd.stream
                &&& cmd.payload.demand_mint() is Some
                &&& x.payload.demand_mint() == cmd.payload.demand_mint()
                &&& x.revision < cmd.revision
            },
            TrackCommandStream::Momentum | TrackCommandStream::Arb => {
                x.stream == cmd.stream && x.revision < cmd.revision
            },
            TrackCommandStream::Control => false,
        }
    }
}

proof fn lemma_kept_is_unlike(
    before: Seq<ImmutableTrackCommand>,
    cmd: ImmutableTrackCommand,
) -> (found: Option<Selection>)
    requires
        !says_nothing_new(before, cmd),
    ensures
        match found {
            Some(sel) => kept(before, cmd) == left(before, sel) && forall|i: int|
                0 <= i < before.len() ==> sel.takes(before[i]) == is_like(
                    #[trigger] before[i],
                    cmd,
                ),
            None => kept(before, cmd) == before && forall|i: int|
                0 <= i < before.len() ==> !is_like(#[trigger] before[i], cmd),
        },
{
    if cmd.payload.strength() is Some {
        Some(Selection::Sync)
    } else if cmd.payload is ContinueGeyserEvict {
        assert forall|i: int| 0 <= i < before.len() implies Selection::Evict.takes(before[i])
            == is_like(#[trigger] before[i], cmd) by {
            if before[i].payload is ContinueGeyserEvict {
                assert(cmd.revision > before[i].revision);
            }
        }
        Some(Selection::Evict)
    } else if cmd.stream.per_mint() && cmd.payload.demand_mint() is Some {
        Some(
            Selection::Demand {
                stream: cmd.stream,
                mint: cmd.payload.demand_mint()->0,
                below: cmd.revision,
            },
        )
    } else if cmd.stream is Momentum || cmd.stream is Arb {
        Some(Selection::Older { stream: cmd.stream, below: cmd.revision })
    } else {
        None
    }
}

proof fn lemma_left_prefix(s: Seq<ImmutableTrackCommand>, sel: Selection, i: int) -> (at: int)
    requires
        0 <= i < s.len(),
        !sel.takes(s[i]),
    ensures
        0 <= at < left(s, sel).len(),
        left(s, sel)[at] == s[i],
        (exists|j: int| 0 <= j < i && !sel.takes(#[trigger] s[j])) ==> at > 0,
    decreases s.len(),
{
    let t = s.drop_last();
    if i < t.len() {
        let at = lemma_left_prefix(t, sel, i);
        assert(left(s, sel)[at] == left(t, sel)[at]);
        if exists|j: int| 0 <= j < i && !sel.takes(#[trigger] s[j]) {
            let j = choose|j: int| 0 <= j < i && !sel.takes(#[trigger] s[j]);
            assert(!sel.takes(t[j]));
        }
        at
    } else {
        if exists|j: int| 0 <= j < i && !sel.takes(#[trigger] s[j]) {
            let j = choose|j: int| 0 <= j < i && !sel.takes(#[trigger] s[j]);
            assert(!sel.takes(t[j]));
            lemma_left(t, sel);
            assert(left(t, sel).contains(t[j]));
        }
        left(t, sel).len() as int
    }
}

/// Keeping a command for replay replaces just its like: whatever else waits still waits, but for
/// the oldest of it where nothing more can; nothing but what waited, and last what stands for the
/// command, waits after it. A request to go on evicting changes nothing beside one as new.
pub proof fn keeping_replaces_only_its_like(
    before: Seq<ImmutableTrackCommand>,
    cap: nat,
    cmd: ImmutableTrackCommand,
    after: Seq<ImmutableTrackCommand>,
    i: int,
)
    requires
        is_staged(before, cap, cmd, after),
        0 <= i < before.len(),
    ensures
        ({
            let nothing_new = cmd.payload is ContinueGeyserEvict && exists|k: int|
                0 <= k < before.len() && (#[trigger] before[k]).payload is ContinueGeyserEvict
                    && cmd.revision <= before[k].revision;
            &&& nothing_new ==> after == before
            &&& !nothing_new ==> {
                &&& after.len() > 0
                &&& !is_like(before[i], cmd) && (before.len() < cap || exists|j: int|
                    0 <= j < i && !is_like(#[trigger] before[j], cmd)) ==> after.contains(before[i])
                &&& is_like(before[i], cmd) ==> !after.drop_last().contains(before[i])
                &&& forall|k: int|
                    0 <= k < after.len() - 1 ==> before.contains(#[trigger] after[k])
                &&& after.len() <= before.len() + 1
            }
        }),
{
    if !says_nothing_new(before, cmd) {
        let found = lemma_kept_is_unlike(before, cmd);
        let sel = found.unwrap_or(Selection::Sync);
        let k = kept(before, cmd);
        let r = with_room(k, cap);
        lemma_left(before, sel);
        assert(after.drop_last() == r);
        let ghost_from: int = if r.len() == k.len() {
            0
        } else {
            1
        };
        assert forall|a: int| 0 <= a < r.len() implies #[trigger] r[a] == k[a + ghost_from] by {}
        assert forall|a: int| 0 <= a < after.len() - 1 implies before.contains(
            #[trigger] after[a],
        ) by {
            assert(after[a] == r[a]);
            if found is Some {
                assert(left(before, sel)[a + ghost_from] == r[a]);
            } else {
                assert(before[a + ghost_from] == r[a]);
            }
        }
        if is_like(before[i], cmd) && r.contains(before[i]) {
            let a = choose|a: int| 0 <= a < r.len() && r[a] == before[i];
            assert(left(before, sel)[a + ghost_from] == before[i]);
            assert(!sel.takes(left(before, sel)[a + ghost_from]));
        }
        if !is_like(before[i], cmd) && (before.len() < cap || exists|j: int|
            0 <= j < i && !is_like(#[trigger] before[j], cmd)) {
            if found is Some {
                if exists|j: int| 0 <= j < i && !is_like(#[trigger] before[j], cmd) {
                    let j = choose|j: int| 0 <= j < i && !is_like(#[trigger] before[j], cmd);
                    assert(!sel.takes(before[j]));
                }
                let at = lemma_left_prefix(before, sel, i);
                assert(r[at - ghost_from] == before[i]);
                assert(after[at - ghost_from] == before[i]);
            } else {
                assert(r[i - ghost_from] == before[i]);
                assert(after[i - ghost_from] == before[i]);
            }
        }
    }
}

/// What waits for a command that was kept: the command itself, unless it asks to synchronise or is
/// an update of a feed.
pub proof fn kept_command_waits_as_it_is(
    before: Seq<ImmutableTrackCommand>,
    cap: nat,
    cmd: ImmutableTrackCommand,
    after: Seq<ImmutableTrackCommand>,
)
    requires
        is_staged(before, cap, cmd, after),
        forall|k: int|
            0 <= k < before.len() && (#[trigger] before[k]).payload is ContinueGeyserEvict
                ==> before[k].revision < cmd.revision,
    ensures
        after.len() > 0,
        after.last().stream == cmd.stream || cmd.payload.strength() is Some,
        cmd.payload.strength() is None && !(cmd.stream is Momentum || cmd.stream is Arb)
            ==> after.last() == cmd,
        cmd.payload.strength() is None ==> after.last().revision == cmd.revision,
        (forall|k: int| 0 <= k < before.len() ==> !is_like(#[trigger] before[k], cmd))
            ==> after.last() == cmd,
{
    if forall|k: int| 0 <= k < before.len() ==> !is_like(#[trigger] before[k], cmd) {
        let sel = Selection::Older { stream: cmd.stream, below: cmd.revision };
        lemma_left(before, sel);
        if cmd.stream is Momentum || cmd.stream is Arb {
            if cmd.payload.strength() is None && !(cmd.payload is ContinueGeyserEvict) && any(
                before,
                sel,
            ) {
                let k = choose|k: int| 0 <= k < before.len() && sel.takes(#[trigger] before[k]);
                assert(is_like(before[k], cmd));
            }
        }
        if any(before, Selection::Sync) && cmd.payload.strength() is Some {
            let k = choose|k: int|
                0 <= k < before.len() && Selection::Sync.takes(#[trigger] before[k]);
            assert(is_like(before[k], cmd));
        }
    }
}

/// A merged request to synchronise asks for no more than was asked for: its strength and its
/// revision are each that of the new request or of one that waited.
pub proof fn merged_sync_asks_for_no_more(
    before: Seq<ImmutableTrackCommand>,
    cap: nat,
    cmd: ImmutableTrackCommand,
    after: Seq<ImmutableTrackCommand>,
)
    requires
        cmd.payload.strength() is Some,
        is_staged(before, cap, cmd, after),
    ensures
        after.last().payload.strength() == cmd.payload.strength() || exists|i: int|
            0 <= i < before.len() && (#[trigger] before[i]).payload.strength()
                == after.last().payload.strength(),
        after.last().revision == cmd.revision || exists|i: int|
            0 <= i < before.len() && (#[trigger] before[i]).revision == after.last().revision,
{
    let syncs = picked(before, Selection::Sync);
    lemma_left(before, Selection::Sync);
    lemma_strongest_is_one(syncs, cmd.payload.strength()->0);
    lemma_newest_is_one(syncs, cmd.revision);
    if any(before, Selection::Sync) {
        let top = strongest(syncs, cmd.payload.strength()->0);
        if top != cmd.payload.strength()->0 {
            let j = choose|j: int|
                0 <= j < syncs.len() && (#[trigger] syncs[j]).payload.strength() == Some(top);
            assert(before.contains(syncs[j]));
            let i = choose|i: int| 0 <= i < before.len() && before[i] == syncs[j];
            assert(before[i].payload.strength() == Some(top));
        }
        let last = newest(syncs, cmd.revision);
        if last != cmd.revision {
            let j = choose|j: int|
                0 <= j < syncs.len() && (#[trigger] syncs[j]).revision == last;
            assert(before.contains(syncs[j]));
            let i = choose|i: int| 0 <= i < before.len() && before[i] == syncs[j];
            assert(before[i].revision == last);
        }
    }
}

proof fn lemma_strongest_is_one(s: Seq<ImmutableTrackCommand>, base: SyncIntentStrength)
    ensures
        strongest(s, base) == base || exists|i: int|
            0 <= i < s.len() && (#[trigger] s[i]).payload.strength() == Some(strongest(s, base)),
    decreases s.len(),
{
    if s.len() > 0 {
        let t = s.drop_last();
        lemma_strongest_is_one(t, base);
        let was = strongest(t, base);
        if was != base {
            let i = choose|i: int|
                0 <= i < t.len() && (#[trigger] t[i]).payload.strength() == Some(was);
            assert(s[i].payload.strength() == Some(was));
        }
        assert(s[s.len() - 1] == s.last());
    }
}

proof fn lemma_newest_is_one(s: Seq<ImmutableTrackCommand>, floor: u64)
    ensures
        newest(s, floor) == floor || exists|i: int|
            0 <= i < s.len() && (#[trigger] s[i]).revision == newest(s, floor),
    decreases s.len(),
{
    if s.len() > 0 {
        let t = s.drop_last();
        lemma_newest_is_one(t, floor);
        let was = newest(t, floor);
        if was != floor {
            let i = choose|i: int| 0 <= i < t.len() && (#[trigger] t[i]).revision == was;
            assert(s[i].revision == was);
        }
        assert(s[s.len() - 1] == s.last());
    }
}

/// A command is held to be covered only by its like: a request to synchronise by one that is
/// queued or waits, a request to go on evicting by such a one. Whatever else comes is never held
/// to be covered, and what has been applied or is queued does not change by asking.
pub proof fn only_like_commands_are_covered(v: StoreView, job: TrackWorkerCommand)
    requires
        v.syncs_by_strength.len() == 3,
    ensures
        v.deduped(job).0 ==> {
            ||| job.strength() is Some && (v.syncs > 0 || exists|i: int|
                0 <= i < v.pending.len() && (#[trigger] v.pending[i]).payload.strength() is Some)
            ||| job is ContinueGeyserEvict && (v.evicts > 0 || exists|i: int|
                0 <= i < v.pending.len()
                    && (#[trigger] v.pending[i]).payload is ContinueGeyserEvict)
        },
        job.strength() is Some && (v.syncs > 0 || exists|i: int|
            0 <= i < v.pending.len() && (#[trigger] v.pending[i]).payload.strength() is Some)
            ==> v.deduped(job).0,
        job is ContinueGeyserEvict && (v.evicts > 0 || exists|i: int|
            0 <= i < v.pending.len() && (#[trigger] v.pending[i]).payload is ContinueGeyserEvict)
            ==> v.deduped(job).0,
        !v.deduped(job).0 ==> v.deduped(job).1 == v,
        v.deduped(job).1.applied == v.applied,
        v.deduped(job).1.syncs == v.syncs,
        v.deduped(job).1.syncs_by_strength == v.syncs_by_strength,
        v.deduped(job).1.evicts == v.evicts,
        v.deduped(job).1.inflight == v.inflight,
        v.deduped(job).1.cap == v.cap,
{
    if exists|i: int|
        0 <= i < v.pending.len() && (#[trigger] v.pending[i]).payload.strength() is Some {
        let i = choose|i: int|
            0 <= i < v.pending.len() && (#[trigger] v.pending[i]).payload.strength() is Some;
        assert(Selection::Sync.takes(v.pending[i]));
    }
    if exists|i: int|
        0 <= i < v.pending.len() && (#[trigger] v.pending[i]).payload is ContinueGeyserEvict {
        let i = choose|i: int|
            0 <= i < v.pending.len() && (#[trigger] v.pending[i]).payload is ContinueGeyserEvict;
        assert(Selection::Evict.takes(v.pending[i]));
    }
}

/// What waits besides its like is not lost when a command is held to be covered, but for the
/// oldest where nothing more can wait; a waiting request to go on evicting is renewed and no
/// older than it was.
pub proof fn covering_keeps_the_rest(v: StoreView, job: TrackWorkerCommand, i: int)
    requires
        v.deduped(job).0,
        0 <= i < v.pending.len(),
    ensures
        job.strength() is Some && v.pending[i].payload.strength() is None && (i > 0
            || v.pending.len() < v.cap || exists|k: int|
            0 <= k < v.pending.len() && (#[trigger] v.pending[k]).payload.strength() is Some)
            ==> v.deduped(job).1.pending.contains(v.pending[i]),
        job is ContinueGeyserEvict ==> {
            let after = v.deduped(job).1.pending;
            &&& after.len() == v.pending.len()
            &&& after[i].payload == v.pending[i].payload
            &&& after[i].revision >= v.pending[i].revision
            &&& !(v.pending[i].payload is ContinueGeyserEvict) ==> after[i] == v.pending[i]
        },
{
    let after = v.deduped(job).1.pending;
    if job.strength() is Some && v.pending[i].payload.strength() is None {
        if after != v.pending {
            let rest = left(v.pending, Selection::Sync);
            lemma_left(v.pending, Selection::Sync);
            if any(v.pending, Selection::Sync) {
                assert(!Selection::Sync.takes(v.pending[i]));
                assert(rest.contains(v.pending[i]));
                let a = choose|a: int| 0 <= a < rest.len() && rest[a] == v.pending[i];
                assert(after[a] == v.pending[i]);
            } else {
                if exists|k: int|
                    0 <= k < v.pending.len()
                        && (#[trigger] v.pending[k]).payload.strength() is Some {
                    let k = choose|k: int|
                        0 <= k < v.pending.len()
                            && (#[trigger] v.pending[k]).payload.strength() is Some;
                    assert(Selection::Sync.takes(v.pending[k]));
                }
                let r = with_room(v.pending, v.cap);
                if r.len() == v.pending.len() {
                    assert(after[i] == v.pending[i]);
                } else if i > 0 {
                    assert(after[i - 1] == v.pending[i]);
                }
            }
        } else {
            assert(after[i] == v.pending[i]);
        }
    }
}

/// Giving a command its revision leaves the command as it is, counts only in its own place, and
/// changes nothing else.
pub proof fn wrapping_counts_only_its_own_place(
    v: StoreView,
    payload: TrackWorkerCommand,
    stream: TrackCommandStream,
    mint: Option<Pubkey>,
)
    requires
        v.issued.streams.len() == 5,
    ensures
        ({
            let (cmd, after) = v.wrapped(payload);
            let own = payload.demand_mint();
            &&& cmd.payload == payload
            &&& cmd.stream == payload.stream()
            &&& cmd.fits()
            &&& cmd.revision == after.issued.of(payload.stream(), own)
            &&& v.issued.of(payload.stream(), own) < u64::MAX ==> cmd.revision == v.issued.of(
                payload.stream(),
                own,
            ) + 1
            &&& stream != payload.stream() || ((stream is Wallet || stream is Tracker) && mint
                != own) ==> after.issued.of(stream, mint) == v.issued.of(stream, mint)
            &&& after == (StoreView { issued: after.issued, ..v })
        }),
{
}

/// A command that leaves the queue undoes what its entering did, as long as no counter stood at
/// its limit; and while a request to synchronise is queued, one as strong is known to be.
pub proof fn leaving_the_queue_undoes_entering(v: StoreView, c: TrackWorkerCommand)
    requires
        v.syncs < u32::MAX,
        v.evicts < u32::MAX,
        v.inflight < usize::MAX,
        v.syncs_by_strength.len() == 3,
        forall|i: int| 0 <= i < 3 ==> #[trigger] v.syncs_by_strength[i] < u32::MAX,
    ensures
        v.queued(c).dequeued(c) == v,
        v.begun().ended() == v,
        v.begun().inflight == v.inflight + 1,
        c.strength() matches Some(s) ==> {
            &&& v.queued(c).syncs == v.syncs + 1
            &&& v.queued(c).evicts == v.evicts
            &&& v.queued(c).queued_strength() matches Some(q) && q.level() >= s.level()
        },
        c is ContinueGeyserEvict ==> v.queued(c).evicts == v.evicts + 1 && v.queued(c).syncs
            == v.syncs,
        c.strength() is None && !(c is ContinueGeyserEvict) ==> v.queued(c) == v,
        v.queued(c).pending == v.pending,
        v.queued(c).applied == v.applied,
        v.queued(c).issued == v.issued,
{
    assert(v.queued(c).dequeued(c).syncs_by_strength =~= v.syncs_by_strength);
}

/// The strength that is known to be queued is that of some request that is counted.
pub proof fn queued_strength_is_counted(v: StoreView)
    requires
        v.syncs_by_strength.len() == 3,
    ensures
        match v.queued_strength() {
            Some(q) => v.syncs_by_strength[q.level()] > 0 && forall|i: int|
                q.level() < i < 3 ==> #[trigger] v.syncs_by_strength[i] == 0,
            None => forall|i: int| 0 <= i < 3 ==> #[trigger] v.syncs_by_strength[i] == 0,
        },
{
}

/// Applying a command raises its own mark to its revision, or leaves it where it was further, and
/// changes nothing else of the store.
pub proof fn applying_raises_just_one_mark(v: StoreView, cmd: ImmutableTrackCommand)
    requires
        v.applied.streams.len() == 5,
    ensures
        ({
            let mint = cmd.payload.demand_mint();
            let after = v.marked(cmd);
            &&& after == (StoreView { applied: after.applied, ..v })
            &&& after.applied.of(cmd.stream, mint) == if v.applied.of(cmd.stream, mint)
                < cmd.revision {
                cmd.revision
            } else {
                v.applied.of(cmd.stream, mint)
            }
        }),
{
}

/// Applied wallet demand counts as applied itself, moves tracker demand for no other mint, and for
/// its own mint no further than what was applied, given out or waits: tracker demand that comes
/// later is applicable.
pub proof fn wallet_demand_supersedes_no_more(
    v: StoreView,
    wallet: ImmutableTrackCommand,
    mint: Pubkey,
)
    requires
        v.applied.streams.len() == 5,
        wallet.stream is Wallet,
        wallet.payload.demand_mint() is Some,
    ensures
        ({
            let after = v.wallet_marked(wallet);
            let tracker = TrackCommandStream::Tracker;
            let own = wallet.payload.demand_mint();
            &&& after == (StoreView { applied: after.applied, ..v })
            &&& after.applied.of(TrackCommandStream::Wallet, own) >= wallet.revision
            &&& Some(mint) != own ==> {
                &&& after.applied.of(tracker, Some(mint)) == v.applied.of(tracker, Some(mint))
                &&& after.applied.of(TrackCommandStream::Wallet, Some(mint)) == v.applied.of(
                    TrackCommandStream::Wallet,
                    Some(mint),
                )
            }
            &&& after.applied.streams == v.applied.streams
            &&& {
                let mark = after.applied.of(tracker, own);
                ||| mark == v.applied.of(tracker, own)
                ||| mark == v.issued.of(tracker, own)
                ||| exists|i: int|
                    0 <= i < v.pending.len() && (#[trigger] v.pending[i]).stream == tracker
                        && v.pending[i].payload.demand_mint() == own && v.pending[i].revision
                        == mark
            }
        }),
{
    let own = wallet.payload.demand_mint()->0;
    let w = v.marked(wallet);
    let sel = Selection::About { stream: TrackCommandStream::Tracker, mint: own };
    let mine = picked(w.pending, sel);
    lemma_left(w.pending, sel);
    let applied = w.applied.of(TrackCommandStream::Tracker, Some(own));
    let issued = w.issued.of(TrackCommandStream::Tracker, Some(own));
    let floor = if issued > applied {
        issued
    } else {
        applied
    };
    lemma_newest_is_one(mine, floor);
    let top = newest(mine, floor);
    if top != floor {
        let j = choose|j: int| 0 <= j < mine.len() && (#[trigger] mine[j]).revision == top;
        assert(w.pending.contains(mine[j]));
        let i = choose|i: int| 0 <= i < w.pending.len() && w.pending[i] == mine[j];
        assert(v.pending[i] == mine[j]);
        assert(sel.takes(v.pending[i]));
    }
}

proof fn lemma_fresh_of_inserted(
    s: Seq<ImmutableTrackCommand>,
    c: ImmutableTrackCommand,
    applied: Marks,
)
    ensures
        fresh(inserted_by_revision(s, c), applied).len() == fresh(s, applied).len() + if applicable(
            applied,
            c,
        ) {
            1int
        } else {
            0
        },
    decreases s.len(),
{
    let r = inserted_by_revision(s, c);
    if s.len() == 0 || s.last().revision <= c.revision {
        assert(r.drop_last() =~= s);
    } else {
        lemma_fresh_of_inserted(s.drop_last(), c, applied);
        assert(r.drop_last() =~= inserted_by_revision(s.drop_last(), c));
    }
}

proof fn lemma_fresh_of_sorted(s: Seq<ImmutableTrackCommand>, applied: Marks)
    ensures
        fresh(by_revision(s), applied).len() == fresh(s, applied).len(),
    decreases s.len(),
{
    if s.len() > 0 {
        lemma_fresh_of_sorted(s.drop_last(), applied);
        lemma_fresh_of_inserted(by_revision(s.drop_last()), s.last(), applied);
    }
}

proof fn lemma_replayed_len(
    s: Seq<ImmutableTrackCommand>,
    applied: Marks,
    streams: Seq<TrackCommandStream>,
)
    requires
        streams.no_duplicates(),
    ensures
        replayed_of(s, applied, streams).len() == s.filter(
            |c: ImmutableTrackCommand| applicable(applied, c) && streams.contains(c.stream),
        ).len(),
    decreases streams.len(),
{
    let wanted = |c: ImmutableTrackCommand| applicable(applied, c) && streams.contains(c.stream);
    if streams.len() == 0 {
        lemma_none_pass(s, wanted);
    } else {
        let rest = streams.drop_last();
        let x = streams.last();
        let before = |c: ImmutableTrackCommand| applicable(applied, c) && rest.contains(c.stream);
        lemma_replayed_len(s, applied, rest);
        let mine = picked(s, Selection::Of { stream: x });
        lemma_fresh_of_sorted(mine, applied);
        lemma_split_by_stream(s, applied, streams, wanted, before);
    }
}

proof fn lemma_none_pass(
    s: Seq<ImmutableTrackCommand>,
    wanted: spec_fn(ImmutableTrackCommand) -> bool,
)
    requires
        forall|i: int| 0 <= i < s.len() ==> !wanted(#[trigger] s[i]),
    ensures
        s.filter(wanted).len() == 0,
    decreases s.len(),
{
    reveal(Seq::filter);
    if s.len() > 0 {
        let t = s.drop_last();
        assert forall|i: int| 0 <= i < t.len() implies !wanted(#[trigger] t[i]) by {
            assert(t[i] == s[i]);
        }
        lemma_none_pass(t, wanted);
        assert(s[s.len() - 1] == s.last());
    }
}

proof fn lemma_split_by_stream(
    s: Seq<ImmutableTrackCommand>,
    applied: Marks,
    streams: Seq<TrackCommandStream>,
    wanted: spec_fn(ImmutableTrackCommand) -> bool,
    before: spec_fn(ImmutableTrackCommand) -> bool,
)
    requires
        streams.len() > 0,
        streams.no_duplicates(),
        forall|c: ImmutableTrackCommand| #[trigger]
            wanted(c) == (applicable(applied, c) && streams.contains(c.stream)),
        forall|c: ImmutableTrackCommand| #[trigger]
            before(c) == (applicable(applied, c) && streams.drop_last().contains(c.stream)),
    ensures
        s.filter(wanted).len() == s.filter(before).len() + fresh(
            picked(s, Selection::Of { stream: streams.last() }),
            applied,
        ).len(),
    decreases s.len(),
{
    reveal(Seq::filter);
    if s.len() > 0 {
        let t = s.drop_last();
        let c = s.last();
        let x = streams.last();
        let rest = streams.drop_last();
        lemma_split_by_stream(t, applied, streams, wanted, before);
        assert(streams.contains(c.stream) <==> rest.contains(c.stream) || c.stream == x) by {
            if streams.contains(c.stream) {
                let j = choose|j: int| 0 <= j < streams.len() && streams[j] == c.stream;
                if j < rest.len() {
                    assert(rest[j] == c.stream);
                }
            }
            if rest.contains(c.stream) {
                let j = choose|j: int| 0 <= j < rest.len() && rest[j] == c.stream;
                assert(streams[j] == c.stream);
            }
            assert(streams[streams.len() - 1] == x);
        }
        assert(!(rest.contains(c.stream) && c.stream == x)) by {
            if rest.contains(c.stream) && c.stream == x {
                let j = choose|j: int| 0 <= j < rest.len() && rest[j] == c.stream;
                assert(streams[j] == streams[streams.len() - 1]);
            }
        }
        let mine = picked(s, Selection::Of { stream: x });
        if c.stream == x {
            assert(mine.drop_last() =~= picked(t, Selection::Of { stream: x }));
            assert(mine.last() == c);
        }
    }
}

/// A replay gives each waiting command that is still applicable as often as it waits.
pub proof fn replay_gives_each_once(s: Seq<ImmutableTrackCommand>, applied: Marks)
    ensures
        replayed(s, applied).len() == s.filter(
            |c: ImmutableTrackCommand| applicable(applied, c),
        ).len(),
{
    let streams = streams_seen(s);
    lemma_streams_distinct(s);
    lemma_streams_seen(s);
    lemma_replayed_len(s, applied, streams);
    let wanted = |c: ImmutableTrackCommand| applicable(applied, c) && streams.contains(c.stream);
    let plain = |c: ImmutableTrackCommand| applicable(applied, c);
    lemma_filters_agree(s, wanted, plain);
}

proof fn lemma_filters_agree(
    s: Seq<ImmutableTrackCommand>,
    a: spec_fn(ImmutableTrackCommand) -> bool,
    b: spec_fn(ImmutableTrackCommand) -> bool,
)
    requires
        forall|i: int| 0 <= i < s.len() ==> a(#[trigger] s[i]) == b(s[i]),
    ensures
        s.filter(a) == s.filter(b),
    decreases s.len(),
{
    reveal(Seq::filter);
    if s.len() > 0 {
        let t = s.drop_last();
        assert forall|i: int| 0 <= i < t.len() implies a(#[trigger] t[i]) == b(t[i]) by {
            assert(t[i] == s[i]);
        }
        lemma_filters_agree(t, a, b);
        assert(s[s.len() - 1] == s.last());
    }
}

/// A request to synchronise that need not be queued is covered: one as strong is queued, or
/// one as strong waits.
pub proof fn deduped_sync_is_covered(v: StoreView, job: TrackWorkerCommand)
    requires
        job.strength() is Some,
        v.deduped(job).0,
        v.counts_each_sync(),
    ensures
        ({
            let strength = job.strength()->0;
            let after = v.deduped(job).1;
            ||| v.syncs > 0 && strength.level() <= v.queued_strength()->0.level()
            ||| after.pending.last().payload.strength() matches Some(waits) && strength.level()
                <= waits.level()
        }),
{
    let strength = job.strength()->0;
    lemma_strongest(picked(v.pending, Selection::Sync), strength);
}

/// The commands come in revision order.
spec fn in_revision_order(s: Seq<ImmutableTrackCommand>) -> bool {
    forall|i: int, j: int|
        0 <= i < j < s.len() ==> (#[trigger] s[i]).revision <= (#[trigger] s[j]).revision
}

proof fn lemma_inserted_order(s: Seq<ImmutableTrackCommand>, c: ImmutableTrackCommand)
    requires
        in_revision_order(s),
    ensures
        in_revision_order(inserted_by_revision(s, c)),
        inserted_by_revision(s, c).len() == s.len() + 1,
        forall|x: ImmutableTrackCommand| #[trigger]
            inserted_by_revision(s, c).contains(x) <==> s.contains(x) || x == c,
    decreases s.len(),
{
    let r = inserted_by_revision(s, c);
    if s.len() == 0 || s.last().revision <= c.revision {
        assert forall|x: ImmutableTrackCommand| #[trigger] r.contains(x) <==> s.contains(x) || x
            == c by {
            lemma_push_contains(s, c, x);
        }
        assert forall|i: int, j: int| 0 <= i < j < r.len() implies (#[trigger] r[i]).revision <= (
        #[trigger] r[j]).revision by {
            assert(r[i] == s[i]);
            if j == s.len() {
                assert(i == s.len() - 1 || s[i].revision <= s[s.len() - 1].revision);
            }
        }
    } else {
        let t = s.drop_last();
        lemma_inserted_order(t, c);
        let m = inserted_by_revision(t, c);
        assert forall|x: ImmutableTrackCommand| #[trigger] r.contains(x) <==> s.contains(x) || x
            == c by {
            lemma_push_contains(m, s.last(), x);
            lemma_push_contains(t, s.last(), x);
            assert(t.push(s.last()) =~= s);
        }
        assert forall|i: int, j: int| 0 <= i < j < r.len() implies (#[trigger] r[i]).revision <= (
        #[trigger] r[j]).revision by {
            assert(r[i] == m[i]);
            if j == m.len() {
                assert(m.contains(m[i]));
                if m[i] != c {
                    let p = choose|p: int| 0 <= p < t.len() && t[p] == m[i];
                    assert(s[p] == m[i]);
                    assert(s[p].revision <= s[s.len() - 1].revision);
                }
            } else {
                assert(r[j] == m[j]);
            }
        }
    }
}

proof fn lemma_push_contains(
    s: Seq<ImmutableTrackCommand>,
    c: ImmutableTrackCommand,
    x: ImmutableTrackCommand,
)
    ensures
        s.push(c).contains(x) <==> s.contains(x) || x == c,
{
    let r = s.push(c);
    if r.contains(x) {
        let i = choose|i: int| 0 <= i < r.len() && r[i] == x;
        if i < s.len() {
            assert(s[i] == x);
        }
    }
    if s.contains(x) {
        let i = choose|i: int| 0 <= i < s.len() && s[i] == x;
        assert(r[i] == x);
    }
    if x == c {
        assert(r[s.len() as int] == x);
    }
}

proof fn lemma_by_revision(s: Seq<ImmutableTrackCommand>)
    ensures
        in_revision_order(by_revision(s)),
        by_revision(s).len() == s.len(),
        forall|x: ImmutableTrackCommand| #[trigger] by_revision(s).contains(x) <==> s.contains(x),
    decreases s.len(),
{
    if s.len() > 0 {
        let t = s.drop_last();
        lemma_by_revision(t);
        lemma_inserted_order(by_revision(t), s.last());
        assert forall|x: ImmutableTrackCommand| #[trigger]
            by_revision(s).contains(x) <==> s.contains(x) by {
            lemma_push_contains(t, s.last(), x);
            assert(t.push(s.last()) =~= s);
        }
    }
}

proof fn lemma_fresh(s: Seq<ImmutableTrackCommand>, applied: Marks)
    ensures
        in_revision_order(s) ==> in_revision_order(fresh(s, applied)),
        forall|x: ImmutableTrackCommand| #[trigger]
            fresh(s, applied).contains(x) <==> s.contains(x) && applicable(applied, x),
    decreases s.len(),
{
    if s.len() > 0 {
        let t = s.drop_last();
        lemma_fresh(t, applied);
        let f = fresh(s, applied);
        let ft = fresh(t, applied);
        assert forall|x: ImmutableTrackCommand| #[trigger] f.contains(x) <==> s.contains(x)
            && applicable(applied, x) by {
            lemma_push_contains(t, s.last(), x);
            lemma_push_contains(ft, s.last(), x);
            assert(t.push(s.last()) =~= s);
        }
        if in_revision_order(s) {
            assert(in_revision_order(t)) by {
                assert forall|i: int, j: int| 0 <= i < j < t.len() implies (
                #[trigger] t[i]).revision <= (#[trigger] t[j]).revision by {
                    assert(t[i] == s[i] && t[j] == s[j]);
                }
            }
            assert forall|i: int, j: int| 0 <= i < j < f.len() implies (
            #[trigger] f[i]).revision <= (#[trigger] f[j]).revision by {
                assert(f[i] == ft[i]);
                if j == ft.len() {
                    assert(ft.contains(ft[i]));
                    let p = choose|p: int| 0 <= p < t.len() && t[p] == ft[i];
                    assert(s[p] == ft[i]);
                    assert(s[p].revision <= s[s.len() - 1].revision);
                } else {
                    assert(f[j] == ft[j]);
                }
            }
        }
    }
}

proof fn lemma_streams_seen(s: Seq<ImmutableTrackCommand>)
    ensures
        forall|i: int| 0 <= i < s.len() ==> streams_seen(s).contains((#[trigger] s[i]).stream),
    decreases s.len(),
{
    if s.len() > 0 {
        let t = s.drop_last();
        lemma_streams_seen(t);
        assert forall|i: int| 0 <= i < s.len() implies streams_seen(s).contains(
            (#[trigger] s[i]).stream,
        ) by {
            let seen = streams_seen(t);
            if i < t.len() {
                assert(t[i] == s[i]);
                let j = choose|j: int| 0 <= j < seen.len() && seen[j] == s[i].stream;
                assert(streams_seen(s)[j] == s[i].stream);
            } else if !seen.contains(s[i].stream) {
                assert(streams_seen(s)[seen.len() as int] == s[i].stream);
            }
        }
    }
}

proof fn lemma_replayed_of(
    s: Seq<ImmutableTrackCommand>,
    applied: Marks,
    streams: Seq<TrackCommandStream>,
)
    requires
        streams.no_duplicates(),
    ensures
        forall|x: ImmutableTrackCommand| #[trigger]
            replayed_of(s, applied, streams).contains(x) <==> s.contains(x) && applicable(
                applied,
                x,
            ) && streams.contains(x.stream),
        forall|i: int, j: int|
            0 <= i < j < replayed_of(s, applied, streams).len() && (#[trigger] replayed_of(
                s,
                applied,
                streams,
            )[i]).stream == (#[trigger] replayed_of(s, applied, streams)[j]).stream
                ==> replayed_of(s, applied, streams)[i].revision <= replayed_of(
                s,
                applied,
                streams,
            )[j].revision,
    decreases streams.len(),
{
    if streams.len() > 0 {
        let rest = streams.drop_last();
        let stream = streams.last();
        lemma_replayed_of(s, applied, rest);
        let sel = Selection::Of { stream };
        let mine = picked(s, sel);
        lemma_left(s, sel);
        lemma_by_revision(mine);
        lemma_fresh(by_revision(mine), applied);
        let a = replayed_of(s, applied, rest);
        let b = fresh(by_revision(mine), applied);
        let r = replayed_of(s, applied, streams);
        assert(r == a + b);
        assert forall|x: ImmutableTrackCommand| #[trigger] b.contains(x) <==> s.contains(x)
            && applicable(applied, x) && x.stream == stream by {
            if mine.contains(x) {
                let i = choose|i: int| 0 <= i < mine.len() && mine[i] == x;
                assert(sel.takes(mine[i]));
                assert(s.contains(mine[i]));
            }
            if s.contains(x) && x.stream == stream {
                let i = choose|i: int| 0 <= i < s.len() && s[i] == x;
                assert(sel.takes(s[i]));
            }
        }
        assert(!rest.contains(stream)) by {
            if rest.contains(stream) {
                let i = choose|i: int| 0 <= i < rest.len() && rest[i] == stream;
                assert(streams[i] == stream);
                assert(streams[streams.len() - 1] == stream);
            }
        }
        assert forall|x: TrackCommandStream| #[trigger] streams.contains(x) <==> rest.contains(x)
            || x == stream by {
            if streams.contains(x) {
                let i = choose|i: int| 0 <= i < streams.len() && streams[i] == x;
                if i < rest.len() {
                    assert(rest[i] == x);
                }
            }
            if rest.contains(x) {
                let i = choose|i: int| 0 <= i < rest.len() && rest[i] == x;
                assert(streams[i] == x);
            }
            if x == stream {
                assert(streams[streams.len() - 1] == x);
            }
        }
        assert forall|x: ImmutableTrackCommand| #[trigger] r.contains(x) <==> s.contains(x)
            && applicable(applied, x) && streams.contains(x.stream) by {
            if r.contains(x) {
                let i = choose|i: int| 0 <= i < r.len() && r[i] == x;
                if i < a.len() {
                    assert(a[i] == x);
                    assert(a.contains(x));
                } else {
                    assert(b[i - a.len()] == x);
                    assert(b.contains(x));
                }
            }
            if a.contains(x) {
                let i = choose|i: int| 0 <= i < a.len() && a[i] == x;
                assert(r[i] == x);
            }
            if b.contains(x) {
                let i = choose|i: int| 0 <= i < b.len() && b[i] == x;
                assert(r[a.len() + i] == x);
            }
        }
        assert forall|i: int, j: int|
            0 <= i < j < r.len() && (#[trigger] r[i]).stream == (#[trigger] r[j]).stream implies
            r[i].revision <= r[j].revision by {
            if j < a.len() {
                assert(a[i] == r[i] && a[j] == r[j]);
            } else if i >= a.len() {
                assert(b[i - a.len()] == r[i] && b[j - a.len()] == r[j]);
            } else {
                assert(a[i] == r[i] && b[j - a.len()] == r[j]);
                assert(a.contains(a[i]));
                assert(b.contains(b[j - a.len()]));
            }
        }
    }
}

/// A replay holds just the waiting commands that are still applicable, and gives those of one
/// stream in revision order.
pub proof fn replay_is_complete_and_in_order(s: Seq<ImmutableTrackCommand>, applied: Marks)
    ensures
        forall|x: ImmutableTrackCommand| #[trigger]
            replayed(s, applied).contains(x) <==> s.contains(x) && applicable(applied, x),
        forall|i: int, j: int|
            0 <= i < j < replayed(s, applied).len() && (#[trigger] replayed(s, applied)[i]).stream
                == (#[trigger] replayed(s, applied)[j]).stream ==> replayed(s, applied)[i].revision
                <= replayed(s, applied)[j].revision,
{
    lemma_streams_distinct(s);
    lemma_streams_seen(s);
    lemma_replayed_of(s, applied, streams_seen(s));
    assert forall|x: ImmutableTrackCommand| s.contains(x) implies streams_seen(s).contains(
        x.stream,
    ) by {
        let i = choose|i: int| 0 <= i < s.len() && s[i] == x;
        assert(streams_seen(s).contains(s[i].stream));
    }
}

} // verus!
