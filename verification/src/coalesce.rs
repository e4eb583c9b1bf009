//! Merging a burst of feed updates into one update with the same effect.
//!
//! Both feeds send lists of active and removed pools. [`merged`] replays a burst on two maps,
//! and [`merge_has_the_effect_of_the_burst`] states that the one merged update leaves any set
//! of tracked pools as the burst would have, applied message by message.

use crate::nats::{
    ArbTrackActiveEntry, ArbTrackRemovedEntry, ArbTrackRequestsUpdate, Duplicate,
    MomentumActivePinReason, MomentumActivePoolEntry, MomentumActivePoolsUpdate,
    MomentumRemovedPoolEntry,
};
use vstd::prelude::*;

verus! {

/// How many momentum updates may wait to be merged.
pub const MARKET_DATA_MOMENTUM_COALESCE_CHANNEL_CAP: usize = 512;

/// How many arbitrage updates may wait to be merged.
pub const MARKET_DATA_ARB_COALESCE_CHANNEL_CAP: usize = 512;

/// What tells the pools of a feed apart: the mint, where the feed names one, and the pool.
pub type PoolKey = (Option<Seq<char>>, Seq<char>);

/// An entry of a feed, found by its key.
pub trait Keyed: Duplicate {
    spec fn key(&self) -> PoolKey;

    fn mint(&self) -> (mint: Option<&String>)
        ensures
            match mint {
                Some(m) => self.key().0 == Some(m@),
                None => self.key().0 is None,
            },
    ;

    fn pool(&self) -> (pool: &String)
        ensures
            pool@ == self.key().1,
    ;
}

/// An active entry, which may carry something over from the entry that it replaces.
pub trait ActiveEntry: Keyed {
    /// `self` in the place of `earlier`.
    spec fn over(&self, earlier: &Self) -> Self;

    proof fn over_keeps_key(a: &Self, earlier: &Self)
        ensures
            a.over(earlier).key() == a.key(),
    ;

    fn put_over(&self, earlier: &Self) -> (merged: Self)
        ensures
            merged == self.over(earlier),
    ;
}

impl Keyed for MomentumActivePoolEntry {
    open spec fn key(&self) -> PoolKey {
        (Some(self.mint@), self.pool@)
    }

    fn mint(&self) -> (mint: Option<&String>) {
        Some(&self.mint)
    }

    fn pool(&self) -> (pool: &String) {
        &self.pool
    }
}

impl Keyed for MomentumRemovedPoolEntry {
    open spec fn key(&self) -> PoolKey {
        (Some(self.mint@), self.pool@)
    }

    fn mint(&self) -> (mint: Option<&String>) {
        Some(&self.mint)
    }

    fn pool(&self) -> (pool: &String) {
        &self.pool
    }
}

impl Keyed for ArbTrackActiveEntry {
    open spec fn key(&self) -> PoolKey {
        (None, self.pool@)
    }

    fn mint(&self) -> (mint: Option<&String>) {
        None
    }

    fn pool(&self) -> (pool: &String) {
        &self.pool
    }
}

impl Keyed for ArbTrackRemovedEntry {
    open spec fn key(&self) -> PoolKey {
        (None, self.pool@)
    }

    fn mint(&self) -> (mint: Option<&String>) {
        None
    }

    fn pool(&self) -> (pool: &String) {
        &self.pool
    }
}

/// A position pin outlasts a tracker pin on the same pool.
pub open spec fn merged_pin_reason(
    existing: MomentumActivePinReason,
    incoming: MomentumActivePinReason,
) -> MomentumActivePinReason {
    if existing is Position || incoming is Position {
        MomentumActivePinReason::Position
    } else {
        MomentumActivePinReason::Tracker
    }
}

fn merge_momentum_active_pin_reason(
    existing: MomentumActivePinReason,
    incoming: MomentumActivePinReason,
) -> (merged: MomentumActivePinReason)
    ensures
        merged == merged_pin_reason(existing, incoming),
{
    if existing == MomentumActivePinReason::Position || incoming
        == MomentumActivePinReason::Position {
        MomentumActivePinReason::Position
    } else {
        MomentumActivePinReason::Tracker
    }
}

impl ActiveEntry for MomentumActivePoolEntry {
    open spec fn over(&self, earlier: &Self) -> Self {
        MomentumActivePoolEntry {
            mint: self.mint,
            pool: self.pool,
            pin_reason: merged_pin_reason(earlier.pin_reason, self.pin_reason),
        }
    }

    proof fn over_keeps_key(a: &Self, earlier: &Self) {
    }

    fn put_over(&self, earlier: &Self) -> (merged: Self) {
        MomentumActivePoolEntry {
            mint: self.mint.clone(),
            pool: self.pool.clone(),
            pin_reason: merge_momentum_active_pin_reason(earlier.pin_reason, self.pin_reason),
        }
    }
}

impl ActiveEntry for ArbTrackActiveEntry {
    open spec fn over(&self, earlier: &Self) -> Self {
        *self
    }

    proof fn over_keeps_key(a: &Self, earlier: &Self) {
    }

    fn put_over(&self, earlier: &Self) -> (merged: Self) {
        self.duplicate()
    }
}

/// What an update says, whichever feed it is of. `full` marks one whose active entries are
/// all there are.
pub struct UpdateView<A, R> {
    pub version: u32,
    pub ts: u64,
    pub active: Seq<A>,
    pub removed: Seq<R>,
    pub full: bool,
}

impl View for MomentumActivePoolsUpdate {
    type V = UpdateView<MomentumActivePoolEntry, MomentumRemovedPoolEntry>;

    open spec fn view(&self) -> Self::V {
        UpdateView {
            version: self.version,
            ts: self.ts_unix_ms,
            active: self.active@,
            removed: self.removed@,
            full: self.full_active_snapshot,
        }
    }
}

impl View for ArbTrackRequestsUpdate {
    type V = UpdateView<ArbTrackActiveEntry, ArbTrackRemovedEntry>;

    open spec fn view(&self) -> Self::V {
        UpdateView {
            version: self.version,
            ts: self.ts_unix_ms,
            active: self.active@,
            removed: self.removed@,
            full: self.reconcile,
        }
    }
}

/// What a burst comes to: by key, the last active entry and the last removal.
#[verifier::ext_equal]
pub struct Burst<A, R> {
    pub active: Map<PoolKey, A>,
    pub removed: Map<PoolKey, R>,
}

pub open spec fn no_burst<A, R>() -> Burst<A, R> {
    Burst { active: Map::empty(), removed: Map::empty() }
}

/// A removal takes the pool out of the active ones.
pub open spec fn with_removal<A: ActiveEntry, R: Keyed>(b: Burst<A, R>, r: R) -> Burst<A, R> {
    Burst { active: b.active.remove(r.key()), removed: b.removed.insert(r.key(), r) }
}

/// An active entry takes back a removal of its pool.
pub open spec fn with_active<A: ActiveEntry, R: Keyed>(b: Burst<A, R>, a: A) -> Burst<A, R> {
    let entry = if b.active.dom().contains(a.key()) {
        a.over(&b.active[a.key()])
    } else {
        a
    };
    Burst { active: b.active.insert(a.key(), entry), removed: b.removed.remove(a.key()) }
}

pub open spec fn with_removals<A: ActiveEntry, R: Keyed>(
    b: Burst<A, R>,
    removed: Seq<R>,
) -> Burst<A, R>
    decreases removed.len(),
{
    if removed.len() == 0 {
        b
    } else {
        with_removal(with_removals(b, removed.drop_last()), removed.last())
    }
}

pub open spec fn with_actives<A: ActiveEntry, R: Keyed>(
    b: Burst<A, R>,
    active: Seq<A>,
) -> Burst<A, R>
    decreases active.len(),
{
    if active.len() == 0 {
        b
    } else {
        with_active(with_actives(b, active.drop_last()), active.last())
    }
}

/// A full update forgets what was active; then removals are taken, then active entries.
pub open spec fn with_update<A: ActiveEntry, R: Keyed>(
    b: Burst<A, R>,
    u: UpdateView<A, R>,
) -> Burst<A, R> {
    let start = if u.full {
        Burst { active: Map::empty(), removed: b.removed }
    } else {
        b
    };
    with_actives(with_removals(start, u.removed), u.active)
}

/// The updates taken one after another.
pub open spec fn merged<A: ActiveEntry, R: Keyed>(updates: Seq<UpdateView<A, R>>) -> Burst<A, R>
    decreases updates.len(),
{
    if updates.len() == 0 {
        no_burst()
    } else {
        with_update(merged(updates.drop_last()), updates.last())
    }
}

/// `entries` are the values of `m`, each once, in some order.
pub open spec fn holds<E: Keyed>(entries: Seq<E>, m: Map<PoolKey, E>) -> bool {
    &&& forall|i: int, j: int|
        0 <= i < j < entries.len() ==> (#[trigger] entries[i]).key() != (
        #[trigger] entries[j]).key()
    &&& forall|i: int|
        0 <= i < entries.len() ==> m.dom().contains((#[trigger] entries[i]).key())
            && m[entries[i].key()] == entries[i]
    &&& forall|k: PoolKey| #[trigger]
        m.dom().contains(k) ==> exists|i: int|
            0 <= i < entries.len() && (#[trigger] entries[i]).key() == k
}

/// `m` is the merge of `updates`: the newest version and time, the pools that the burst
/// leaves active and removed, and full where any of the updates is.
pub open spec fn is_merge<A: ActiveEntry, R: Keyed>(
    m: UpdateView<A, R>,
    updates: Seq<UpdateView<A, R>>,
) -> bool {
    &&& forall|i: int| 0 <= i < updates.len() ==> (#[trigger] updates[i]).version <= m.version
    &&& exists|i: int| 0 <= i < updates.len() && (#[trigger] updates[i]).version == m.version
    &&& forall|i: int| 0 <= i < updates.len() ==> (#[trigger] updates[i]).ts <= m.ts
    &&& exists|i: int| 0 <= i < updates.len() && (#[trigger] updates[i]).ts == m.ts
    &&& m.full == exists|i: int| 0 <= i < updates.len() && (#[trigger] updates[i]).full
    &&& holds(m.active, merged(updates).active)
    &&& holds(m.removed, merged(updates).removed)
}

/// The updates of a burst as what they say.
pub open spec fn views<U: View>(updates: Seq<U>) -> Seq<U::V> {
    updates.map_values(|u: U| u@)
}

fn same_key<A: Keyed, B: Keyed>(a: &A, b: &B) -> (same: bool)
    ensures
        same == (a.key() == b.key()),
{
    let same_mint = match (a.mint(), b.mint()) {
        (Some(x), Some(y)) => *x == *y,
        (None, None) => true,
        _ => false,
    };
    same_mint && *a.pool() == *b.pool()
}

/// Entries with distinct keys.
struct Table<E> {
    entries: Vec<E>,
    map: Ghost<Map<PoolKey, E>>,
}

impl<E: Keyed> Table<E> {
    spec fn wf(&self) -> bool {
        holds(self.entries@, self.map@)
    }

    fn new() -> (t: Self)
        ensures
            t.wf(),
            t.map@ == Map::<PoolKey, E>::empty(),
    {
        Table { entries: Vec::new(), map: Ghost(Map::empty()) }
    }

    fn clear(&mut self)
        ensures
            final(self).wf(),
            final(self).map@ == Map::<PoolKey, E>::empty(),
    {
        self.entries.clear();
        self.map = Ghost(Map::empty());
    }

    fn find<B: Keyed>(&self, b: &B) -> (at: Option<usize>)
        requires
            self.wf(),
        ensures
            match at {
                Some(i) => {
                    &&& i < self.entries@.len()
                    &&& self.map@.dom().contains(b.key())
                    &&& self.entries@[i as int].key() == b.key()
                    &&& self.map@[b.key()] == self.entries@[i as int]
                },
                None => !self.map@.dom().contains(b.key()),
            },
    {
        let mut i: usize = 0;
        while i < self.entries.len()
            invariant
                self.wf(),
                i <= self.entries@.len(),
                forall|j: int| 0 <= j < i ==> (#[trigger] self.entries@[j]).key() != b.key(),
            decreases self.entries@.len() - i,
        {
            if same_key(&self.entries[i], b) {
                return Some(i);
            }
            i += 1;
        }
        None
    }

    fn drop_key<B: Keyed>(&mut self, b: &B)
        requires
            old(self).wf(),
        ensures
            final(self).wf(),
            final(self).map@ == old(self).map@.remove(b.key()),
    {
        let at = self.find(b);
        if let Some(i) = at {
            self.entries.remove(i);
            self.map = Ghost(self.map@.remove(b.key()));
            proof {
                let was = old(self).entries@;
                assert(self.entries@ == was.remove(i as int));
                assert forall|k: PoolKey| #[trigger] self.map@.dom().contains(k) implies exists|
                    j: int,
                |
                    0 <= j < self.entries@.len() && (#[trigger] self.entries@[j]).key() == k by {
                    assert(old(self).map@.dom().contains(k));
                    let j = choose|j: int| 0 <= j < was.len() && (#[trigger] was[j]).key() == k;
                    assert(j != i);
                    let p = if j < i {
                        j
                    } else {
                        j - 1
                    };
                    assert(self.entries@[p] == was[j]);
                }
            }
        } else {
            assert(self.map@ =~= old(self).map@.remove(b.key()));
        }
    }

    fn put(&mut self, e: E)
        requires
            old(self).wf(),
        ensures
            final(self).wf(),
            final(self).map@ == old(self).map@.insert(e.key(), e),
    {
        let ghost key = e.key();
        let ghost value = e;
        let at = self.find(&e);
        let ghost was = self.entries@;
        match at {
            Some(i) => {
                self.entries.set(i, e);
                proof {
                    assert(self.entries@ == was.update(i as int, value));
                }
            },
            None => {
                self.entries.push(e);
            },
        }
        self.map = Ghost(self.map@.insert(key, value));
        proof {
            assert forall|k: PoolKey| #[trigger] self.map@.dom().contains(k) implies exists|j: int|
                0 <= j < self.entries@.len() && (#[trigger] self.entries@[j]).key() == k by {
                if k == key {
                    match at {
                        Some(i) => {
                            assert(self.entries@[i as int].key() == k);
                        },
                        None => {
                            assert(self.entries@[self.entries@.len() - 1].key() == k);
                        },
                    }
                } else {
                    assert(old(self).map@.dom().contains(k));
                    let j = choose|j: int| 0 <= j < was.len() && (#[trigger] was[j]).key() == k;
                    assert(self.entries@[j] == was[j]);
                }
            }
        }
    }
}

/// A burst being taken in.
struct Merge<A, R> {
    active: Table<A>,
    removed: Table<R>,
    saw_full: bool,
    max_version: u32,
    max_ts: u64,
}

impl<A: ActiveEntry, R: Keyed> Merge<A, R> {
    spec fn burst(&self) -> Burst<A, R> {
        Burst { active: self.active.map@, removed: self.removed.map@ }
    }

    /// The updates taken in so far are `updates`.
    spec fn has_taken(&self, updates: Seq<UpdateView<A, R>>) -> bool {
        &&& self.active.wf()
        &&& self.removed.wf()
        &&& self.burst() == merged(updates)
        &&& forall|i: int| 0 <= i < updates.len() ==> (#[trigger] updates[i]).version
            <= self.max_version
        &&& updates.len() > 0 ==> exists|i: int|
            0 <= i < updates.len() && (#[trigger] updates[i]).version == self.max_version
        &&& forall|i: int| 0 <= i < updates.len() ==> (#[trigger] updates[i]).ts <= self.max_ts
        &&& updates.len() > 0 ==> exists|i: int|
            0 <= i < updates.len() && (#[trigger] updates[i]).ts == self.max_ts
        &&& self.saw_full == exists|i: int|
            0 <= i < updates.len() && (#[trigger] updates[i]).full
        &&& updates.len() == 0 ==> self.max_version == 0 && self.max_ts == 0
    }

    fn new() -> (m: Self)
        ensures
            m.has_taken(Seq::empty()),
    {
        Merge {
            active: Table::new(),
            removed: Table::new(),
            saw_full: false,
            max_version: 0,
            max_ts: 0,
        }
    }

    fn take(
        &mut self,
        version: u32,
        ts: u64,
        full: bool,
        removed: &Vec<R>,
        active: &Vec<A>,
        Ghost(before): Ghost<Seq<UpdateView<A, R>>>,
    )
        requires
            old(self).has_taken(before),
        ensures
            final(self).has_taken(
                before.push(
                    UpdateView { version, ts, active: active@, removed: removed@, full },
                ),
            ),
    {
        let ghost u = UpdateView { version, ts, active: active@, removed: removed@, full };
        let ghost after = before.push(u);
        if version > self.max_version {
            self.max_version = version;
        }
        if ts > self.max_ts {
            self.max_ts = ts;
        }
        if full {
            self.saw_full = true;
            self.active.clear();
        }
        let ghost start = self.burst();
        let mut i: usize = 0;
        while i < removed.len()
            invariant
                i <= removed@.len(),
                self.active.wf(),
                self.removed.wf(),
                self.saw_full == (old(self).saw_full || full),
                self.max_version == (if version > old(self).max_version {
                    version
                } else {
                    old(self).max_version
                }),
                self.max_ts == (if ts > old(self).max_ts { ts } else { old(self).max_ts }),
                self.burst() == with_removals(start, removed@.take(i as int)),
            decreases removed@.len() - i,
        {
            let r = &removed[i];
            self.active.drop_key(r);
            self.removed.put(r.duplicate());
            proof {
                let t = removed@.take(i + 1);
                assert(t.drop_last() =~= removed@.take(i as int));
                assert(t.last() == *r);
            }
            i += 1;
        }
        assert(removed@.take(i as int) =~= removed@);
        let ghost mid = self.burst();
        let mut j: usize = 0;
        while j < active.len()
            invariant
                j <= active@.len(),
                self.active.wf(),
                self.removed.wf(),
                self.saw_full == (old(self).saw_full || full),
                self.max_version == (if version > old(self).max_version {
                    version
                } else {
                    old(self).max_version
                }),
                self.max_ts == (if ts > old(self).max_ts { ts } else { old(self).max_ts }),
                self.burst() == with_actives(mid, active@.take(j as int)),
            decreases active@.len() - j,
        {
            let a = &active[j];
            self.removed.drop_key(a);
            let at = self.active.find(a);
            let entry = match at {
                Some(p) => a.put_over(&self.active.entries[p]),
                None => a.duplicate(),
            };
            proof {
                if let Some(p) = at {
                    A::over_keeps_key(a, &self.active.entries@[p as int]);
                }
                let t = active@.take(j + 1);
                assert(t.drop_last() =~= active@.take(j as int));
                assert(t.last() == *a);
            }
            self.active.put(entry);
            j += 1;
        }
        proof {
            assert(active@.take(j as int) =~= active@);
            assert(after.drop_last() =~= before);
            assert(after.last() == u);
            assert(self.burst() == merged(after));
            assert forall|i: int| 0 <= i < after.len() implies (#[trigger] after[i]).version
                <= self.max_version && after[i].ts <= self.max_ts by {
                if i < before.len() {
                    assert(after[i] == before[i]);
                }
            }
            let n = before.len() as int;
            assert(after[n] == u);
            if self.max_version != version {
                let i = choose|i: int|
                    0 <= i < before.len() && (#[trigger] before[i]).version == self.max_version;
                assert(after[i] == before[i]);
            }
            if self.max_ts != ts {
                let i = choose|i: int|
                    0 <= i < before.len() && (#[trigger] before[i]).ts == self.max_ts;
                assert(after[i] == before[i]);
            }
            if old(self).saw_full {
                let i = choose|i: int| 0 <= i < before.len() && (#[trigger] before[i]).full;
                assert(after[i] == before[i]);
            }
            if exists|i: int| 0 <= i < after.len() && (#[trigger] after[i]).full {
                let i = choose|i: int| 0 <= i < after.len() && (#[trigger] after[i]).full;
                if i < n {
                    assert(before[i] == after[i]);
                }
            }
        }
    }
}

/// Merges a burst of momentum updates into one update with the same effect; none for an
/// empty burst.
pub fn merge_momentum_active_pools_updates(updates: &[MomentumActivePoolsUpdate]) -> (r: Option<
    MomentumActivePoolsUpdate,
>)
    ensures
        match r {
            None => updates@.len() == 0,
            Some(m) => updates@.len() > 0 && is_merge(m@, views(updates@)),
        },
{
    if updates.len() == 0 {
        return None;
    }
    let mut merge: Merge<MomentumActivePoolEntry, MomentumRemovedPoolEntry> = Merge::new();
    let ghost all = views(updates@);
    let mut i: usize = 0;
    assert(all.take(0) =~= Seq::empty());
    while i < updates.len()
        invariant
            i <= updates@.len(),
            all == views(updates@),
            merge.has_taken(all.take(i as int)),
        decreases updates@.len() - i,
    {
        let u = &updates[i];
        merge.take(
            u.version,
            u.ts_unix_ms,
            u.full_active_snapshot,
            &u.removed,
            &u.active,
            Ghost(all.take(i as int)),
        );
        assert(all.take(i + 1) =~= all.take(i as int).push(all[i as int]));
        i += 1;
    }
    assert(all.take(i as int) =~= all);
    Some(
        MomentumActivePoolsUpdate {
            version: merge.max_version,
            ts_unix_ms: merge.max_ts,
            active: merge.active.entries,
            removed: merge.removed.entries,
            full_active_snapshot: merge.saw_full,
        },
    )
}

/// Merges a burst of arbitrage updates into one update with the same effect; none for an
/// empty burst.
pub fn merge_arb_track_requests_updates(updates: &[ArbTrackRequestsUpdate]) -> (r: Option<
    ArbTrackRequestsUpdate,
>)
    ensures
        match r {
            None => updates@.len() == 0,
            Some(m) => updates@.len() > 0 && is_merge(m@, views(updates@)),
        },
{
    if updates.len() == 0 {
        return None;
    }
    let mut merge: Merge<ArbTrackActiveEntry, ArbTrackRemovedEntry> = Merge::new();
    let ghost all = views(updates@);
    let mut i: usize = 0;
    assert(all.take(0) =~= Seq::empty());
    while i < updates.len()
        invariant
            i <= updates@.len(),
            all == views(updates@),
            merge.has_taken(all.take(i as int)),
        decreases updates@.len() - i,
    {
        let u = &updates[i];
        merge.take(
            u.version,
            u.ts_unix_ms,
            u.reconcile,
            &u.removed,
            &u.active,
            Ghost(all.take(i as int)),
        );
        assert(all.take(i + 1) =~= all.take(i as int).push(all[i as int]));
        i += 1;
    }
    assert(all.take(i as int) =~= all);
    Some(
        ArbTrackRequestsUpdate {
            version: merge.max_version,
            ts_unix_ms: merge.max_ts,
            active: merge.active.entries,
            removed: merge.removed.entries,
            reconcile: merge.saw_full,
        },
    )
}

/// The keys of `entries`.
pub open spec fn keys<E: Keyed>(entries: Seq<E>) -> Set<PoolKey> {
    entries.map_values(|e: E| e.key()).to_set()
}

/// What applying one update makes of a set of tracked pools.
pub open spec fn applied<A: ActiveEntry, R: Keyed>(
    pools: Set<PoolKey>,
    u: UpdateView<A, R>,
) -> Set<PoolKey> {
    let start = if u.full {
        Set::empty()
    } else {
        pools
    };
    start.difference(keys(u.removed)).union(keys(u.active))
}

/// What applying the updates in turn makes of a set of tracked pools.
pub open spec fn applied_in_turn<A: ActiveEntry, R: Keyed>(
    pools: Set<PoolKey>,
    updates: Seq<UpdateView<A, R>>,
) -> Set<PoolKey>
    decreases updates.len(),
{
    if updates.len() == 0 {
        pools
    } else {
        applied(applied_in_turn(pools, updates.drop_last()), updates.last())
    }
}

/// What a burst makes of a set of tracked pools.
spec fn burst_applied<A, R>(start: Set<PoolKey>, b: Burst<A, R>) -> Set<PoolKey> {
    start.difference(b.removed.dom()).union(b.active.dom())
}

proof fn lemma_keys_step<E: Keyed>(entries: Seq<E>)
    requires
        entries.len() > 0,
    ensures
        keys(entries) == keys(entries.drop_last()).insert(entries.last().key()),
{
    let ks = entries.map_values(|e: E| e.key());
    let rest = entries.drop_last().map_values(|e: E| e.key());
    assert(rest =~= ks.drop_last());
    assert forall|k: PoolKey| #[trigger] ks.to_set().contains(k) implies rest.to_set().insert(
        entries.last().key(),
    ).contains(k) by {
        let i = choose|i: int| 0 <= i < ks.len() && ks[i] == k;
        if i < rest.len() {
            assert(rest[i] == k);
        }
    }
    assert forall|k: PoolKey| #[trigger]
        rest.to_set().insert(entries.last().key()).contains(k) implies ks.to_set().contains(k) by {
        if rest.contains(k) {
            let i = choose|i: int| 0 <= i < rest.len() && rest[i] == k;
            assert(ks[i] == k);
        } else {
            assert(ks[ks.len() - 1] == k);
        }
    }
    assert(ks.to_set() =~= rest.to_set().insert(entries.last().key()));
}

proof fn lemma_removals_applied<A: ActiveEntry, R: Keyed>(
    start: Set<PoolKey>,
    b: Burst<A, R>,
    removed: Seq<R>,
)
    ensures
        burst_applied(start, with_removals(b, removed)) == burst_applied(start, b).difference(
            keys(removed),
        ),
    decreases removed.len(),
{
    if removed.len() == 0 {
        assert(keys(removed) =~= Set::empty());
        assert(burst_applied(start, b).difference(keys(removed)) =~= burst_applied(start, b));
    } else {
        lemma_removals_applied(start, b, removed.drop_last());
        lemma_keys_step(removed);
        let b1 = with_removals(b, removed.drop_last());
        let k = removed.last().key();
        assert(with_removals(b, removed).active.dom() =~= b1.active.dom().remove(k));
        assert(with_removals(b, removed).removed.dom() =~= b1.removed.dom().insert(k));
        assert(burst_applied(start, with_removals(b, removed)) =~= burst_applied(start, b1).remove(
            k,
        ));
        assert(burst_applied(start, with_removals(b, removed)) =~= burst_applied(
            start,
            b,
        ).difference(keys(removed)));
    }
}

proof fn lemma_actives_applied<A: ActiveEntry, R: Keyed>(
    start: Set<PoolKey>,
    b: Burst<A, R>,
    active: Seq<A>,
)
    ensures
        burst_applied(start, with_actives(b, active)) == burst_applied(start, b).union(
            keys(active),
        ),
    decreases active.len(),
{
    if active.len() == 0 {
        assert(keys(active) =~= Set::empty());
        assert(burst_applied(start, b).union(keys(active)) =~= burst_applied(start, b));
    } else {
        lemma_actives_applied(start, b, active.drop_last());
        lemma_keys_step(active);
        let b1 = with_actives(b, active.drop_last());
        let k = active.last().key();
        assert(with_actives(b, active).active.dom() =~= b1.active.dom().insert(k));
        assert(with_actives(b, active).removed.dom() =~= b1.removed.dom().remove(k));
        assert(burst_applied(start, with_actives(b, active)) =~= burst_applied(start, b1).insert(
            k,
        ));
        assert(burst_applied(start, with_actives(b, active)) =~= burst_applied(start, b).union(
            keys(active),
        ));
    }
}

proof fn lemma_burst_applied<A: ActiveEntry, R: Keyed>(
    pools: Set<PoolKey>,
    updates: Seq<UpdateView<A, R>>,
)
    ensures
        ({
            let full = exists|i: int| 0 <= i < updates.len() && (#[trigger] updates[i]).full;
            let start = if full {
                Set::empty()
            } else {
                pools
            };
            applied_in_turn(pools, updates) == burst_applied(start, merged(updates))
        }),
    decreases updates.len(),
{
    let full = exists|i: int| 0 <= i < updates.len() && (#[trigger] updates[i]).full;
    let start = if full {
        Set::empty()
    } else {
        pools
    };
    if updates.len() == 0 {
        assert(burst_applied(start, merged(updates)) =~= pools);
    } else {
        let rest = updates.drop_last();
        let u = updates.last();
        lemma_burst_applied(pools, rest);
        let rest_full = exists|i: int| 0 <= i < rest.len() && (#[trigger] rest[i]).full;
        if rest_full {
            let i = choose|i: int| 0 <= i < rest.len() && (#[trigger] rest[i]).full;
            assert(updates[i] == rest[i]);
        }
        if full && !u.full {
            let i = choose|i: int| 0 <= i < updates.len() && (#[trigger] updates[i]).full;
            assert(rest[i] == updates[i]);
        }
        if u.full {
            assert(updates[updates.len() - 1].full);
        }
        let b = merged(rest);
        let b0 = if u.full {
            Burst { active: Map::empty(), removed: b.removed }
        } else {
            b
        };
        let b1 = with_removals(b0, u.removed);
        lemma_removals_applied(start, b0, u.removed);
        lemma_actives_applied(start, b1, u.active);
        if u.full {
            assert(burst_applied(start, b0) =~= Set::empty());
        }
    }
}

proof fn lemma_holds_keys<E: Keyed>(entries: Seq<E>, m: Map<PoolKey, E>)
    requires
        holds(entries, m),
    ensures
        keys(entries) == m.dom(),
{
    let ks = entries.map_values(|e: E| e.key());
    assert forall|k: PoolKey| #[trigger] ks.to_set().contains(k) implies m.dom().contains(k) by {
        let i = choose|i: int| 0 <= i < ks.len() && ks[i] == k;
        assert(entries[i].key() == k);
    }
    assert forall|k: PoolKey| #[trigger] m.dom().contains(k) implies ks.to_set().contains(k) by {
        let i = choose|i: int| 0 <= i < entries.len() && (#[trigger] entries[i]).key() == k;
        assert(ks[i] == k);
    }
    assert(ks.to_set() =~= m.dom());
}

/// Applying the merge of a burst to any set of tracked pools leaves the set that applying the
/// updates of the burst one after another leaves.
pub proof fn merge_has_the_effect_of_the_burst<A: ActiveEntry, R: Keyed>(
    m: UpdateView<A, R>,
    updates: Seq<UpdateView<A, R>>,
    pools: Set<PoolKey>,
)
    requires
        is_merge(m, updates),
    ensures
        applied(pools, m) == applied_in_turn(pools, updates),
{
    lemma_burst_applied(pools, updates);
    lemma_holds_keys(m.active, merged(updates).active);
    lemma_holds_keys(m.removed, merged(updates).removed);
}

proof fn lemma_disjoint<A: ActiveEntry, R: Keyed>(
    b: Burst<A, R>,
    removed: Seq<R>,
    active: Seq<A>,
)
    requires
        b.active.dom().disjoint(b.removed.dom()),
    ensures
        ({
            let after = with_actives(with_removals(b, removed), active);
            after.active.dom().disjoint(after.removed.dom())
        }),
    decreases removed.len(), active.len(),
{
    if active.len() > 0 {
        lemma_disjoint(b, removed, active.drop_last());
    } else if removed.len() > 0 {
        lemma_disjoint(b, removed.drop_last(), active);
        assert(with_actives(with_removals(b, removed.drop_last()), active) == with_removals(
            b,
            removed.drop_last(),
        ));
    }
}

/// No pool is both active and removed after a burst.
pub proof fn merge_never_contradicts_itself<A: ActiveEntry, R: Keyed>(
    updates: Seq<UpdateView<A, R>>,
)
    ensures
        merged(updates).active.dom().disjoint(merged(updates).removed.dom()),
    decreases updates.len(),
{
    if updates.len() > 0 {
        let rest = updates.drop_last();
        let u = updates.last();
        merge_never_contradicts_itself(rest);
        let b = merged(rest);
        let b0 = if u.full {
            Burst { active: Map::empty(), removed: b.removed }
        } else {
            b
        };
        lemma_disjoint(b0, u.removed, u.active);
    }
}

proof fn lemma_removals_alone<A: ActiveEntry, R: Keyed>(removed: Seq<R>)
    requires
        forall|i: int, j: int|
            0 <= i < j < removed.len() ==> (#[trigger] removed[i]).key() != (
            #[trigger] removed[j]).key(),
    ensures
        ({
            let b = with_removals(no_burst::<A, R>(), removed);
            &&& b.active == Map::<PoolKey, A>::empty()
            &&& b.removed.dom() == keys(removed)
            &&& forall|i: int|
                0 <= i < removed.len() ==> b.removed[(#[trigger] removed[i]).key()] == removed[i]
        }),
    decreases removed.len(),
{
    let b = with_removals(no_burst::<A, R>(), removed);
    if removed.len() == 0 {
        assert(keys(removed) =~= Set::empty());
        assert(b.removed.dom() =~= keys(removed));
    } else {
        let rest = removed.drop_last();
        lemma_removals_alone::<A, R>(rest);
        lemma_keys_step(removed);
        assert(b.active =~= Map::<PoolKey, A>::empty());
        assert(b.removed.dom() =~= keys(removed));
        assert forall|i: int| 0 <= i < removed.len() implies b.removed[(
        #[trigger] removed[i]).key()] == removed[i] by {
            if i < rest.len() {
                assert(rest[i] == removed[i]);
                assert(removed[i].key() != removed[removed.len() - 1].key());
            }
        }
    }
}

proof fn lemma_actives_alone<A: ActiveEntry, R: Keyed>(b: Burst<A, R>, active: Seq<A>)
    requires
        b.active == Map::<PoolKey, A>::empty(),
        keys(active).disjoint(b.removed.dom()),
        forall|i: int, j: int|
            0 <= i < j < active.len() ==> (#[trigger] active[i]).key() != (
            #[trigger] active[j]).key(),
    ensures
        ({
            let after = with_actives(b, active);
            &&& after.removed == b.removed
            &&& after.active.dom() == keys(active)
            &&& forall|i: int|
                0 <= i < active.len() ==> after.active[(#[trigger] active[i]).key()] == active[i]
        }),
    decreases active.len(),
{
    let after = with_actives(b, active);
    if active.len() == 0 {
        assert(keys(active) =~= Set::empty());
        assert(after.active.dom() =~= keys(active));
    } else {
        let rest = active.drop_last();
        lemma_keys_step(active);
        lemma_actives_alone(b, rest);
        let last = active.last();
        assert(keys(active).contains(last.key()));
        assert(!keys(rest).contains(last.key())) by {
            let ks = rest.map_values(|e: A| e.key());
            if ks.to_set().contains(last.key()) {
                let i = choose|i: int| 0 <= i < ks.len() && ks[i] == last.key();
                assert(active[i].key() != active[active.len() - 1].key());
            }
        }
        assert(after.removed =~= b.removed);
        assert(after.active.dom() =~= keys(active));
        assert forall|i: int| 0 <= i < active.len() implies after.active[(
        #[trigger] active[i]).key()] == active[i] by {
            if i < rest.len() {
                assert(rest[i] == active[i]);
                assert(active[i].key() != active[active.len() - 1].key());
            }
        }
    }
}

proof fn lemma_same_entries<E: Keyed>(entries: Seq<E>, a: Map<PoolKey, E>, b: Map<PoolKey, E>)
    requires
        holds(entries, b),
        a.dom() == keys(entries),
        forall|i: int| 0 <= i < entries.len() ==> a[(#[trigger] entries[i]).key()] == entries[i],
    ensures
        a == b,
{
    lemma_holds_keys(entries, b);
    assert forall|k: PoolKey| #[trigger] a.dom().contains(k) implies a[k] == b[k] by {
        assert(b.dom().contains(k));
        let i = choose|i: int| 0 <= i < entries.len() && (#[trigger] entries[i]).key() == k;
        assert(a[entries[i].key()] == entries[i]);
    }
    assert(a =~= b);
}

/// The merge of a burst, taken as an update of its own, comes to what the burst comes to.
proof fn lemma_merge_alone<A: ActiveEntry, R: Keyed>(
    m: UpdateView<A, R>,
    updates: Seq<UpdateView<A, R>>,
)
    requires
        is_merge(m, updates),
    ensures
        merged(seq![m]) == merged(updates),
{
    let one = seq![m];
    assert(one.drop_last() =~= Seq::empty());
    assert(merged(one.drop_last()) == no_burst::<A, R>());
    let b = merged(updates);
    merge_never_contradicts_itself(updates);
    lemma_holds_keys(m.active, b.active);
    lemma_holds_keys(m.removed, b.removed);
    lemma_removals_alone::<A, R>(m.removed);
    let taken = with_removals(no_burst::<A, R>(), m.removed);
    lemma_actives_alone(taken, m.active);
    let after = with_actives(taken, m.active);
    assert(merged(one) == after);
    lemma_same_entries(m.active, after.active, b.active);
    lemma_same_entries(m.removed, after.removed, b.removed);
}

/// The merge of a burst stands in for the burst: with more updates behind it, it comes to what
/// the burst with these updates behind it comes to, and so does merging them once more.
pub proof fn merge_stands_in_for_the_burst<A: ActiveEntry, R: Keyed>(
    m: UpdateView<A, R>,
    a: Seq<UpdateView<A, R>>,
    b: Seq<UpdateView<A, R>>,
)
    requires
        is_merge(m, a),
    ensures
        merged(seq![m] + b) == merged(a + b),
        forall|n: UpdateView<A, R>| #[trigger] is_merge(n, seq![m] + b) ==> is_merge(n, a + b),
    decreases b.len(),
{
    let short = seq![m] + b;
    let long = a + b;
    if b.len() == 0 {
        assert(short =~= seq![m]);
        assert(long =~= a);
        lemma_merge_alone(m, a);
    } else {
        merge_stands_in_for_the_burst(m, a, b.drop_last());
        assert(short.drop_last() =~= seq![m] + b.drop_last());
        assert(long.drop_last() =~= a + b.drop_last());
        assert(short.last() == long.last());
    }
    assert forall|n: UpdateView<A, R>| #[trigger] is_merge(n, short) implies is_merge(n, long) by {
        lemma_same_heads(m, a, b, n);
    }
}

proof fn lemma_same_heads<A: ActiveEntry, R: Keyed>(
    m: UpdateView<A, R>,
    a: Seq<UpdateView<A, R>>,
    b: Seq<UpdateView<A, R>>,
    n: UpdateView<A, R>,
)
    requires
        is_merge(m, a),
        is_merge(n, seq![m] + b),
        merged(seq![m] + b) == merged(a + b),
    ensures
        is_merge(n, a + b),
{
    let short = seq![m] + b;
    let long = a + b;
    assert(short[0] == m);
    assert forall|i: int| 0 <= i < long.len() implies (#[trigger] long[i]).version <= n.version
        && long[i].ts <= n.ts by {
        if i < a.len() {
            assert(long[i] == a[i]);
        } else {
            assert(long[i] == short[i - a.len() + 1]);
        }
    }
    let v = choose|i: int| 0 <= i < short.len() && (#[trigger] short[i]).version == n.version;
    let av = choose|i: int| 0 <= i < a.len() && (#[trigger] a[i]).version == m.version;
    assert(long[av] == a[av]);
    if v > 0 {
        assert(long[v - 1 + a.len()] == short[v]);
    }
    let t = choose|i: int| 0 <= i < short.len() && (#[trigger] short[i]).ts == n.ts;
    let at = choose|i: int| 0 <= i < a.len() && (#[trigger] a[i]).ts == m.ts;
    assert(long[at] == a[at]);
    if t > 0 {
        assert(long[t - 1 + a.len()] == short[t]);
    }
    if n.full {
        let f = choose|i: int| 0 <= i < short.len() && (#[trigger] short[i]).full;
        if f > 0 {
            assert(long[f - 1 + a.len()].full);
        } else {
            let af = choose|i: int| 0 <= i < a.len() && (#[trigger] a[i]).full;
            assert(long[af].full);
        }
    }
    if exists|i: int| 0 <= i < long.len() && (#[trigger] long[i]).full {
        let f = choose|i: int| 0 <= i < long.len() && (#[trigger] long[i]).full;
        if f < a.len() {
            assert(a[f].full);
            assert(short[0].full);
        } else {
            assert(short[f - a.len() + 1].full);
        }
    }
}

/// What the momentum feed says of its pools.
pub type MomentumView = UpdateView<MomentumActivePoolEntry, MomentumRemovedPoolEntry>;

/// A pool of the burst is pinned for a position.
pub open spec fn pins_position(
    b: Burst<MomentumActivePoolEntry, MomentumRemovedPoolEntry>,
    k: PoolKey,
) -> bool {
    b.active.dom().contains(k) && b.active[k].pin_reason is Position
}

proof fn lemma_removals_keep_position(
    b: Burst<MomentumActivePoolEntry, MomentumRemovedPoolEntry>,
    removed: Seq<MomentumRemovedPoolEntry>,
    k: PoolKey,
)
    requires
        pins_position(b, k),
        !keys(removed).contains(k),
    ensures
        pins_position(with_removals(b, removed), k),
    decreases removed.len(),
{
    if removed.len() > 0 {
        lemma_keys_step(removed);
        lemma_removals_keep_position(b, removed.drop_last(), k);
    }
}

proof fn lemma_actives_keep_position(
    b: Burst<MomentumActivePoolEntry, MomentumRemovedPoolEntry>,
    active: Seq<MomentumActivePoolEntry>,
    k: PoolKey,
)
    requires
        pins_position(b, k) || exists|j: int|
            0 <= j < active.len() && (#[trigger] active[j]).key() == k
                && active[j].pin_reason is Position,
    ensures
        pins_position(with_actives(b, active), k),
    decreases active.len(),
{
    if active.len() > 0 {
        let rest = active.drop_last();
        if pins_position(b, k) {
            lemma_actives_keep_position(b, rest, k);
        } else {
            let j = choose|j: int|
                0 <= j < active.len() && (#[trigger] active[j]).key() == k
                    && active[j].pin_reason is Position;
            if j < rest.len() {
                assert(rest[j] == active[j]);
                lemma_actives_keep_position(b, rest, k);
            }
        }
    }
}

/// Once an update of a burst pins a pool for a position, the burst leaves it so pinned,
/// unless a later update removes the pool or starts afresh: no later tracker pin downgrades
/// it.
pub proof fn position_pin_is_not_downgraded(updates: Seq<MomentumView>, at: int, k: PoolKey)
    requires
        0 <= at < updates.len(),
        exists|j: int|
            0 <= j < updates[at].active.len() && (#[trigger] updates[at].active[j]).key() == k
                && updates[at].active[j].pin_reason is Position,
        forall|i: int|
            at < i < updates.len() ==> !(#[trigger] updates[i]).full && !keys(
                updates[i].removed,
            ).contains(k),
    ensures
        pins_position(merged(updates), k),
    decreases updates.len(),
{
    let rest = updates.drop_last();
    let u = updates.last();
    let b = merged(rest);
    if at == updates.len() - 1 {
        let b0 = if u.full {
            Burst { active: Map::empty(), removed: b.removed }
        } else {
            b
        };
        lemma_actives_keep_position(with_removals(b0, u.removed), u.active, k);
    } else {
        assert(rest[at] == updates[at]);
        assert forall|i: int| at < i < rest.len() implies !(#[trigger] rest[i]).full && !keys(
            rest[i].removed,
        ).contains(k) by {
            assert(rest[i] == updates[i]);
        }
        position_pin_is_not_downgraded(rest, at, k);
        assert(updates[updates.len() - 1] == u);
        lemma_removals_keep_position(b, u.removed, k);
        lemma_actives_keep_position(with_removals(b, u.removed), u.active, k);
    }
}

/// `entries` hold one with the key `k`.
pub open spec fn names<E: Keyed>(entries: Seq<E>, k: PoolKey) -> bool {
    exists|i: int| 0 <= i < entries.len() && (#[trigger] entries[i]).key() == k
}

proof fn lemma_names_step<E: Keyed>(entries: Seq<E>, k: PoolKey)
    requires
        entries.len() > 0,
    ensures
        names(entries, k) <==> names(entries.drop_last(), k) || entries.last().key() == k,
{
    let rest = entries.drop_last();
    if names(entries, k) {
        let i = choose|i: int| 0 <= i < entries.len() && (#[trigger] entries[i]).key() == k;
        if i < rest.len() {
            assert(rest[i].key() == k);
        }
    }
    if names(rest, k) {
        let i = choose|i: int| 0 <= i < rest.len() && (#[trigger] rest[i]).key() == k;
        assert(entries[i].key() == k);
    }
    assert(entries[entries.len() - 1] == entries.last());
}

proof fn lemma_removals_of<A: ActiveEntry, R: Keyed>(b: Burst<A, R>, removed: Seq<R>, k: PoolKey)
    ensures
        ({
            let after = with_removals(b, removed);
            &&& names(removed, k) ==> !after.active.dom().contains(k)
                && after.removed.dom().contains(k)
            &&& !names(removed, k) ==> {
                &&& after.active.dom().contains(k) == b.active.dom().contains(k)
                &&& after.removed.dom().contains(k) == b.removed.dom().contains(k)
                &&& b.active.dom().contains(k) ==> after.active[k] == b.active[k]
                &&& b.removed.dom().contains(k) ==> after.removed[k] == b.removed[k]
            }
        }),
    decreases removed.len(),
{
    if removed.len() > 0 {
        lemma_removals_of(b, removed.drop_last(), k);
        lemma_names_step(removed, k);
    }
}

proof fn lemma_actives_of<A: ActiveEntry, R: Keyed>(b: Burst<A, R>, active: Seq<A>, k: PoolKey)
    ensures
        ({
            let after = with_actives(b, active);
            &&& names(active, k) ==> after.active.dom().contains(k)
                && !after.removed.dom().contains(k)
            &&& !names(active, k) ==> {
                &&& after.active.dom().contains(k) == b.active.dom().contains(k)
                &&& after.removed.dom().contains(k) == b.removed.dom().contains(k)
                &&& b.active.dom().contains(k) ==> after.active[k] == b.active[k]
                &&& b.removed.dom().contains(k) ==> after.removed[k] == b.removed[k]
            }
        }),
    decreases active.len(),
{
    if active.len() > 0 {
        lemma_actives_of(b, active.drop_last(), k);
        lemma_names_step(active, k);
    }
}

/// The last update of a burst has the last word on a pool: it is active where that update lists it
/// as active, else removed where that update lists it as removed; a full update leaves no other
/// pool active; a pool of which the last update says nothing is left as it was.
pub proof fn last_update_has_the_last_word<A: ActiveEntry, R: Keyed>(
    updates: Seq<UpdateView<A, R>>,
    k: PoolKey,
)
    requires
        updates.len() > 0,
    ensures
        ({
            let u = updates.last();
            let was = merged(updates.drop_last());
            let now = merged(updates);
            &&& names(u.active, k) ==> now.active.dom().contains(k) && !now.removed.dom().contains(
                k,
            )
            &&& !names(u.active, k) && names(u.removed, k) ==> !now.active.dom().contains(k)
                && now.removed.dom().contains(k)
            &&& !names(u.active, k) && !names(u.removed, k) ==> {
                &&& now.active.dom().contains(k) <==> !u.full && was.active.dom().contains(k)
                &&& now.active.dom().contains(k) ==> now.active[k] == was.active[k]
                &&& now.removed.dom().contains(k) <==> was.removed.dom().contains(k)
                &&& now.removed.dom().contains(k) ==> now.removed[k] == was.removed[k]
            }
        }),
{
    let u = updates.last();
    let b = merged(updates.drop_last());
    let b0 = if u.full {
        Burst { active: Map::empty(), removed: b.removed }
    } else {
        b
    };
    lemma_removals_of(b0, u.removed, k);
    lemma_actives_of(with_removals(b0, u.removed), u.active, k);
}

/// A burst of no updates comes to nothing.
pub proof fn nothing_comes_of_no_updates<A: ActiveEntry, R: Keyed>(k: PoolKey)
    ensures
        !merged(Seq::<UpdateView<A, R>>::empty()).active.dom().contains(k),
        !merged(Seq::<UpdateView<A, R>>::empty()).removed.dom().contains(k),
{
}

proof fn lemma_last_arb_entry(
    b: Burst<ArbTrackActiveEntry, ArbTrackRemovedEntry>,
    active: Seq<ArbTrackActiveEntry>,
    j: int,
)
    requires
        0 <= j < active.len(),
        forall|i: int| j < i < active.len() ==> (#[trigger] active[i]).key() != active[j].key(),
    ensures
        with_actives(b, active).active.dom().contains(active[j].key()),
        with_actives(b, active).active[active[j].key()] == active[j],
    decreases active.len(),
{
    let rest = active.drop_last();
    if j < rest.len() {
        assert(rest[j] == active[j]);
        assert forall|i: int| j < i < rest.len() implies (#[trigger] rest[i]).key()
            != rest[j].key() by {
            assert(rest[i] == active[i]);
        }
        lemma_last_arb_entry(b, rest, j);
        assert(active[active.len() - 1].key() != active[j].key());
    }
}

/// Of an arbitrage pool that the last update lists as active, the burst keeps the last entry as it
/// is.
pub proof fn last_arbitrage_entry_stands(
    updates: Seq<UpdateView<ArbTrackActiveEntry, ArbTrackRemovedEntry>>,
    j: int,
)
    requires
        updates.len() > 0,
        0 <= j < updates.last().active.len(),
        forall|i: int|
            j < i < updates.last().active.len() ==> (#[trigger] updates.last().active[i]).key()
                != updates.last().active[j].key(),
    ensures
        ({
            let entry = updates.last().active[j];
            &&& merged(updates).active.dom().contains(entry.key())
            &&& merged(updates).active[entry.key()] == entry
        }),
{
    let u = updates.last();
    let b = merged(updates.drop_last());
    let b0 = if u.full {
        Burst { active: Map::empty(), removed: b.removed }
    } else {
        b
    };
    lemma_last_arb_entry(with_removals(b0, u.removed), u.active, j);
}

proof fn lemma_no_position(
    b: Burst<MomentumActivePoolEntry, MomentumRemovedPoolEntry>,
    active: Seq<MomentumActivePoolEntry>,
    k: PoolKey,
)
    requires
        !pins_position(b, k),
        forall|j: int|
            0 <= j < active.len() && (#[trigger] active[j]).key() == k
                ==> !(active[j].pin_reason is Position),
    ensures
        !pins_position(with_actives(b, active), k),
    decreases active.len(),
{
    if active.len() > 0 {
        let rest = active.drop_last();
        assert forall|j: int|
            0 <= j < rest.len() && (#[trigger] rest[j]).key() == k implies !(
        rest[j].pin_reason is Position) by {
            assert(rest[j] == active[j]);
        }
        lemma_no_position(b, rest, k);
        assert(active[active.len() - 1] == active.last());
    }
}

/// A momentum pool is pinned for a position only where the last update pins it so, or where it
/// was so pinned and the last update neither removes it nor starts afresh.
pub proof fn position_pin_has_a_cause(updates: Seq<MomentumView>, k: PoolKey)
    requires
        updates.len() > 0,
        pins_position(merged(updates), k),
    ensures
        ({
            let u = updates.last();
            ||| exists|j: int|
                0 <= j < u.active.len() && (#[trigger] u.active[j]).key() == k
                    && u.active[j].pin_reason is Position
            ||| pins_position(merged(updates.drop_last()), k) && !u.full && !names(u.removed, k)
        }),
{
    let u = updates.last();
    let b = merged(updates.drop_last());
    let b0 = if u.full {
        Burst { active: Map::empty(), removed: b.removed }
    } else {
        b
    };
    let b1 = with_removals(b0, u.removed);
    lemma_removals_of(b0, u.removed, k);
    if !pins_position(b1, k) && forall|j: int|
        0 <= j < u.active.len() && (#[trigger] u.active[j]).key() == k ==> !(
        u.active[j].pin_reason is Position) {
        lemma_no_position(b1, u.active, k);
    }
}

} // verus!
