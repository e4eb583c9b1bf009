//! Explicit-account admission over consumer-owned groups: a cap on distinct addresses, whole
//! groups in or out, consumer priority, shared-address refcounts and least-recently-touched
//! eviction.

use crate::aged_key::{AgedKey, Bounded};
use crate::explicit_ownership;
use crate::ordered;
use crate::ordered::{OrderedMap, Ranked};
use crate::owner_index;
use crate::owner_index::OwnerIndex;
use crate::pubkey::Pubkey;
use crate::row_order;
use crate::touch_stamps;
use vstd::prelude::*;

verus! {

/// Who owns a group.
#[derive(Debug, Clone, Copy, PartialEq, Eq, PartialOrd, Ord, Hash, Structural)]
pub enum ConsumerId {
    Wallet,
    Momentum,
    Arb,
    Tracker,
}

/// Pin priority: an earlier one is better protected.
#[derive(Debug, Clone, Copy, PartialEq, Eq, PartialOrd, Ord, Structural)]
pub enum PinPriority {
    Wallet,
    Momentum,
    Arb,
    Tracker,
}

impl PinPriority {
    /// Wallet, momentum, arb, tracker.
    pub open spec fn level(self) -> int {
        match self {
            PinPriority::Wallet => 0,
            PinPriority::Momentum => 1,
            PinPriority::Arb => 2,
            PinPriority::Tracker => 3,
        }
    }
}

/// A consumer and the address that identifies its group.
#[derive(Debug, Clone, Copy, PartialEq, Eq, PartialOrd, Ord, Hash)]
pub struct OwnerKey {
    pub consumer: ConsumerId,
    pub owner: Pubkey,
}

impl ConsumerId {
    /// The pin priority of the consumer.
    pub open spec fn priority(self) -> PinPriority {
        match self {
            ConsumerId::Wallet => PinPriority::Wallet,
            ConsumerId::Momentum => PinPriority::Momentum,
            ConsumerId::Arb => PinPriority::Arb,
            ConsumerId::Tracker => PinPriority::Tracker,
        }
    }

    /// Eviction class: lower goes first.
    pub open spec fn class(self) -> u8 {
        (3 - self.priority().level()) as u8
    }

    fn eviction_class(&self) -> (r: u8)
        ensures
            r == self.class(),
    {
        match self {
            ConsumerId::Wallet => 3,
            ConsumerId::Momentum => 2,
            ConsumerId::Arb => 1,
            ConsumerId::Tracker => 0,
        }
    }
}

/// The pin priority of a consumer.
pub fn pin_priority_from_consumer(consumer: ConsumerId) -> (r: PinPriority)
    ensures
        r == consumer.priority(),
{
    match consumer {
        ConsumerId::Wallet => PinPriority::Wallet,
        ConsumerId::Momentum => PinPriority::Momentum,
        ConsumerId::Arb => PinPriority::Arb,
        ConsumerId::Tracker => PinPriority::Tracker,
    }
}

impl OwnerKey {
    pub fn new(consumer: ConsumerId, owner: Pubkey) -> (r: Self)
        ensures
            r == (OwnerKey { consumer, owner }),
    {
        OwnerKey { consumer, owner }
    }
}

impl Ranked for OwnerKey {
    /// By consumer, then by address.
    open spec fn rank(self) -> int {
        let base = match self.consumer {
            ConsumerId::Wallet => 0,
            ConsumerId::Momentum => explicit_ownership::address_span(),
            ConsumerId::Arb => explicit_ownership::address_span()
                + explicit_ownership::address_span(),
            ConsumerId::Tracker => explicit_ownership::address_span()
                + explicit_ownership::address_span() + explicit_ownership::address_span(),
        };
        base + self.owner.rank()
    }

    proof fn rank_injective(a: Self, b: Self) {
        explicit_ownership::lemma_address_span(a.owner);
        explicit_ownership::lemma_address_span(b.owner);
        assert(a.consumer == b.consumer);
        Pubkey::rank_injective(a.owner, b.owner);
    }

    fn precedes(&self, other: &Self) -> (before: bool) {
        proof {
            explicit_ownership::lemma_address_span(self.owner);
            explicit_ownership::lemma_address_span(other.owner);
        }
        let a: u8 = self.consumer.eviction_class();
        let b: u8 = other.consumer.eviction_class();
        if a == b {
            self.owner.precedes(&other.owner)
        } else {
            a > b
        }
    }

    fn same(&self, other: &Self) -> (equal: bool) {
        self.consumer == other.consumer && self.owner.same(&other.owner)
    }
}

impl Bounded for OwnerKey {
    open spec fn span() -> int {
        explicit_ownership::address_span() + explicit_ownership::address_span()
            + explicit_ownership::address_span() + explicit_ownership::address_span()
    }

    proof fn within_span(self) {
        explicit_ownership::lemma_address_span(self.owner);
    }
}

/// One group at a point in time; the addresses are sorted.
#[derive(Debug, Clone, PartialEq, Eq)]
pub struct OwnerGroupSnapshot {
    pub owner: OwnerKey,
    pub pubkeys: Vec<Pubkey>,
}

/// Result of admitting a group.
#[derive(Debug, Clone, PartialEq, Eq)]
pub enum AdmissionResult {
    Inserted { added_pubkeys: Vec<Pubkey>, evicted_owners: Vec<OwnerKey> },
    OwnerAddedNoNewPubkey,
    RejectedCap,
    RejectedProtected,
    RejectedInvalidGroup,
}

/// Result of bringing the set within its cap.
#[derive(Debug, Clone, PartialEq, Eq)]
pub enum CapConvergeResult {
    Converged { evicted_owners: Vec<OwnerKey> },
    ProtectedOverflow,
    Unconverged,
}

/// Which groups a restore took in.
#[derive(Debug, Clone, PartialEq, Eq)]
pub struct RestoreResult {
    pub admitted: Vec<OwnerKey>,
    pub rejected: Vec<OwnerKey>,
}

/// An evicted group.
#[derive(Debug, Clone, PartialEq, Eq)]
pub struct EvictedGroup {
    pub owner: OwnerKey,
    pub pubkeys: Vec<Pubkey>,
}

/// Told of every evicted group.
pub trait AdmissionObserver {
    fn on_group_evicted(&mut self, owner: OwnerKey, pubkeys: &[Pubkey]);
}

/// An observer that does nothing.
#[derive(Debug, Default)]
pub struct NoopAdmissionObserver;

impl AdmissionObserver for NoopAdmissionObserver {
    fn on_group_evicted(&mut self, owner: OwnerKey, pubkeys: &[Pubkey]) {
    }
}

/// Groups by owner.
pub type OwnedGroups = Map<OwnerKey, Seq<Pubkey>>;

/// What the set holds.
#[verifier::ext_equal]
pub struct DesiredView {
    pub cap: usize,
    pub groups: OwnedGroups,
    pub stamps: Map<OwnerKey, u64>,
    pub counter: u64,
}

/// There are more groups than stamps.
#[derive(Debug, Clone, Copy, PartialEq, Eq)]
pub struct LruStampError;

/// The counter renumbers the stamps once it gets here.
pub const LRU_RENORMALIZE_THRESHOLD: u64 = u64::MAX - 1024;

/// The stamps and the counter after it has advanced.
pub open spec fn counter_advanced(stamps: Map<OwnerKey, u64>, counter: u64) -> Option<
    (Map<OwnerKey, u64>, u64),
> {
    if counter >= LRU_RENORMALIZE_THRESHOLD {
        if stamps.dom().len() + 1 > u64::MAX {
            None
        } else {
            Some((touch_stamps::renumbered(stamps), (stamps.dom().len() + 1) as u64))
        }
    } else {
        Some((stamps, (counter + 1) as u64))
    }
}

impl DesiredView {
    /// Number of distinct addresses.
    pub open spec fn len(self) -> nat {
        owner_index::physical(self.groups).len()
    }

    /// The keys that are not in the set yet.
    pub open spec fn fresh(self, keys: Seq<Pubkey>) -> Set<Pubkey> {
        keys.to_set().difference(owner_index::physical(self.groups))
    }

    /// The groups with `gone` out and the group of `key` set to `listing`.
    pub open spec fn replaced(
        self,
        gone: Set<OwnerKey>,
        key: OwnerKey,
        listing: Seq<Pubkey>,
    ) -> OwnedGroups {
        self.groups.remove_keys(gone).insert(key, listing)
    }

    /// How many addresses there would be.
    pub open spec fn projected(self, gone: Set<OwnerKey>, key: OwnerKey, listing: Seq<Pubkey>) -> nat {
        owner_index::physical(self.replaced(gone, key, listing)).len()
    }

    /// The state with `gone` out, `key` touched and its group set to `listing`.
    pub open spec fn committed(
        self,
        gone: Set<OwnerKey>,
        key: OwnerKey,
        listing: Seq<Pubkey>,
    ) -> DesiredView {
        let (stamps, counter) = counter_advanced(self.stamps.remove_keys(gone), self.counter)->0;
        DesiredView {
            cap: self.cap,
            groups: self.replaced(gone, key, listing),
            stamps: stamps.insert(key, counter),
            counter,
        }
    }

    /// The state without the group of `key`.
    pub open spec fn without(self, key: OwnerKey) -> DesiredView {
        DesiredView {
            cap: self.cap,
            groups: self.groups.remove(key),
            stamps: self.stamps.remove(key),
            counter: self.counter,
        }
    }

    /// The addresses of wallet groups other than `but`.
    pub open spec fn wallet_addresses(self, but: Option<OwnerKey>) -> Set<Pubkey> {
        owner_index::physical(
            self.groups.restrict(
                self.groups.dom().filter(
                    |o: OwnerKey| o.consumer == ConsumerId::Wallet && but != Some(o),
                ),
            ),
        )
    }

    /// Wallet groups alone are over the cap.
    pub open spec fn wallet_overflow(self) -> bool {
        self.wallet_addresses(None).len() > self.cap
    }
}

/// Whether a group of `victim` may go for an incoming group of `incoming`.
pub open spec fn may_evict(victim: ConsumerId, incoming: ConsumerId) -> bool {
    victim != ConsumerId::Wallet && victim.priority().level() >= incoming.priority().level()
}

/// The eviction key of an owner.
pub open spec fn victim_key(view: DesiredView, owner: OwnerKey) -> AgedKey<OwnerKey> {
    AgedKey { priority: owner.consumer.class(), last_touch: view.stamps[owner], owner }
}

/// The eviction keys of the owners that may go for `incoming`.
pub open spec fn candidate_set(view: DesiredView, incoming: OwnerKey) -> Set<AgedKey<OwnerKey>> {
    Set::new(
        |k: AgedKey<OwnerKey>|
            view.groups.dom().contains(k.owner) && k.owner != incoming && may_evict(
                k.owner.consumer,
                incoming.consumer,
            ) && k == victim_key(view, k.owner),
    )
}

/// The owners that may go for `incoming`, in eviction order.
pub open spec fn candidates(view: DesiredView, incoming: OwnerKey) -> Seq<AgedKey<OwnerKey>> {
    ordered::in_order(candidate_set(view, incoming))
}

/// One pass over the candidates from `i` on: a candidate goes if that brings the projected number
/// of addresses down, until it is within the cap.
pub open spec fn pass(
    view: DesiredView,
    incoming: OwnerKey,
    listing: Seq<Pubkey>,
    keys: Seq<AgedKey<OwnerKey>>,
    i: int,
    gone: Seq<OwnerKey>,
) -> Seq<OwnerKey>
    decreases keys.len() - i,
{
    if i < 0 || i >= keys.len() || view.projected(gone.to_set(), incoming, listing) <= view.cap {
        gone
    } else {
        let next = gone.push(keys[i].owner);
        if !gone.contains(keys[i].owner) && view.projected(next.to_set(), incoming, listing)
            < view.projected(gone.to_set(), incoming, listing) {
            pass(view, incoming, listing, keys, i + 1, next)
        } else {
            pass(view, incoming, listing, keys, i + 1, gone)
        }
    }
}

/// Two passes: owners that share addresses may become worth evicting in the second.
pub open spec fn planned_victims(view: DesiredView, incoming: OwnerKey, listing: Seq<Pubkey>) -> Seq<
    OwnerKey,
> {
    let keys = candidates(view, incoming);
    pass(
        view,
        incoming,
        listing,
        keys,
        0,
        pass(view, incoming, listing, keys, 0, Seq::empty()),
    )
}

/// How an admission ends.
pub enum AdmitKind {
    Invalid,
    Touch,
    Protected,
    NoRoom,
    Insert,
}

/// How the admission of a group ends.
pub open spec fn admit_kind(before: DesiredView, key: OwnerKey, keys: Seq<Pubkey>) -> AdmitKind {
    let listing = ordered::in_order(keys.to_set());
    if keys.len() == 0 {
        AdmitKind::Invalid
    } else if before.groups.dom().contains(key) && before.groups[key] == listing {
        if counter_advanced(before.stamps, before.counter) is None {
            AdmitKind::NoRoom
        } else {
            AdmitKind::Touch
        }
    } else if before.projected(Set::empty(), key, listing) > before.cap && key.consumer
        == ConsumerId::Wallet && before.wallet_addresses(Some(key)).union(keys.to_set()).len()
        > before.cap {
        AdmitKind::Protected
    } else {
        let gone = planned_victims(before, key, listing).to_set();
        if before.projected(gone, key, listing) > before.cap || counter_advanced(
            before.stamps.remove_keys(gone),
            before.counter,
        ) is None {
            AdmitKind::NoRoom
        } else {
            AdmitKind::Insert
        }
    }
}

/// The state after the admission of a group; a refusal changes nothing.
pub open spec fn admitted(before: DesiredView, key: OwnerKey, keys: Seq<Pubkey>) -> DesiredView {
    let listing = ordered::in_order(keys.to_set());
    match admit_kind(before, key, keys) {
        AdmitKind::Touch => before.committed(Set::empty(), key, listing),
        AdmitKind::Insert => before.committed(
            planned_victims(before, key, listing).to_set(),
            key,
            listing,
        ),
        _ => before,
    }
}

/// What admitting a group does.
pub open spec fn admit_outcome(
    before: DesiredView,
    key: OwnerKey,
    keys: Seq<Pubkey>,
    result: AdmissionResult,
    after: DesiredView,
) -> bool {
    &&& after == admitted(before, key, keys)
    &&& match admit_kind(before, key, keys) {
        AdmitKind::Invalid => result is RejectedInvalidGroup,
        AdmitKind::Touch => result is OwnerAddedNoNewPubkey,
        AdmitKind::Protected => result is RejectedProtected,
        AdmitKind::NoRoom => result is RejectedCap,
        AdmitKind::Insert => {
            let listing = ordered::in_order(keys.to_set());
            &&& result matches AdmissionResult::Inserted { added_pubkeys, evicted_owners }
            &&& ordered::lists(added_pubkeys@, before.fresh(keys))
            &&& ordered::lists(
                evicted_owners@,
                planned_victims(before, key, listing).to_set(),
            )
        },
    }
}

/// The groups that an admission evicts, in the order in which they go.
pub open spec fn admit_events(
    before: DesiredView,
    key: OwnerKey,
    keys: Seq<Pubkey>,
    result: AdmissionResult,
) -> Seq<(OwnerKey, Seq<Pubkey>)> {
    if result is Inserted {
        planned_victims(before, key, ordered::in_order(keys.to_set())).map_values(
            |o: OwnerKey| (o, before.groups[o]),
        )
    } else {
        Seq::empty()
    }
}

/// The evicted groups as owners and addresses.
pub open spec fn events_of(list: Seq<EvictedGroup>) -> Seq<(OwnerKey, Seq<Pubkey>)> {
    list.map_values(|g: EvictedGroup| (g.owner, g.pubkeys@))
}

/// What planning has cost since the counters were last reset: copies of all groups, addresses
/// whose holders were looked at, and candidates that were tried.
#[derive(Debug, Default, Clone, Copy, PartialEq, Eq, Structural)]
pub struct PlanningStats {
    pub full_graph_copies: usize,
    pub owner_edge_visits: usize,
    pub candidate_pops: usize,
}

/// A counter that has risen by `n`, or to its limit.
pub open spec fn risen(count: usize, n: nat) -> usize {
    if count + n > usize::MAX {
        usize::MAX
    } else {
        (count + n) as usize
    }
}

/// What a piece of planning costs.
pub struct PlanningCost {
    pub visits: nat,
    pub pops: nat,
}

impl PlanningCost {
    pub open spec fn nothing() -> Self {
        PlanningCost { visits: 0, pops: 0 }
    }

    pub open spec fn and(self, other: Self) -> Self {
        PlanningCost { visits: self.visits + other.visits, pops: self.pops + other.pops }
    }
}

impl PlanningStats {
    pub open spec fn zero() -> Self {
        PlanningStats { full_graph_copies: 0, owner_edge_visits: 0, candidate_pops: 0 }
    }

    /// The counters after planning at this cost, which never copies all groups.
    pub open spec fn plus(self, cost: PlanningCost) -> Self {
        PlanningStats {
            full_graph_copies: self.full_graph_copies,
            owner_edge_visits: risen(self.owner_edge_visits, cost.visits),
            candidate_pops: risen(self.candidate_pops, cost.pops),
        }
    }

    fn record_owner_edge_visit(&mut self)
        ensures
            *final(self) == old(self).plus(PlanningCost { visits: 1, pops: 0 }),
    {
        if self.owner_edge_visits < usize::MAX {
            self.owner_edge_visits = self.owner_edge_visits + 1;
        }
    }

    fn record_candidate_pop(&mut self)
        ensures
            *final(self) == old(self).plus(PlanningCost { visits: 0, pops: 1 }),
    {
        if self.candidate_pops < usize::MAX {
            self.candidate_pops = self.candidate_pops + 1;
        }
    }
}

/// The addresses that setting the group of `key` and taking `gone` out may add or free: those
/// listed, and those of the groups concerned.
pub open spec fn touched(
    view: DesiredView,
    gone: Set<OwnerKey>,
    key: OwnerKey,
    listing: Seq<Pubkey>,
) -> Set<Pubkey> {
    listing.to_set().union(owner_index::physical(view.groups.restrict(gone.insert(key))))
}

/// What [`pass`] costs: each candidate that is tried is one pop, and its projection visits the
/// touched addresses.
pub open spec fn pass_cost(
    view: DesiredView,
    incoming: OwnerKey,
    listing: Seq<Pubkey>,
    keys: Seq<AgedKey<OwnerKey>>,
    i: int,
    gone: Seq<OwnerKey>,
) -> PlanningCost
    decreases keys.len() - i,
{
    if i < 0 || i >= keys.len() || view.projected(gone.to_set(), incoming, listing) <= view.cap {
        PlanningCost::nothing()
    } else if gone.contains(keys[i].owner) {
        pass_cost(view, incoming, listing, keys, i + 1, gone)
    } else {
        let next = gone.push(keys[i].owner);
        let one = PlanningCost {
            visits: touched(view, next.to_set(), incoming, listing).len(),
            pops: 1,
        };
        if view.projected(next.to_set(), incoming, listing) < view.projected(
            gone.to_set(),
            incoming,
            listing,
        ) {
            one.and(pass_cost(view, incoming, listing, keys, i + 1, next))
        } else {
            one.and(pass_cost(view, incoming, listing, keys, i + 1, gone))
        }
    }
}

/// What finding the victims of a plan costs.
pub open spec fn plan_cost(view: DesiredView, incoming: OwnerKey, listing: Seq<Pubkey>) -> PlanningCost {
    let keys = candidates(view, incoming);
    let first = pass(view, incoming, listing, keys, 0, Seq::empty());
    pass_cost(view, incoming, listing, keys, 0, Seq::empty()).and(
        pass_cost(view, incoming, listing, keys, 0, first),
    )
}

/// What the admission of a group costs.
pub open spec fn admit_cost(before: DesiredView, key: OwnerKey, keys: Seq<Pubkey>) -> PlanningCost {
    let listing = ordered::in_order(keys.to_set());
    let one = PlanningCost {
        visits: touched(before, Set::empty(), key, listing).len(),
        pops: 0,
    };
    if keys.len() == 0 || (before.groups.dom().contains(key) && before.groups[key] == listing) {
        PlanningCost::nothing()
    } else if admit_kind(before, key, keys) is Protected {
        one
    } else {
        one.and(plan_cost(before, key, listing))
    }
}

/// Groups of addresses under a cap.
#[derive(Debug, Clone)]
pub struct AdmissionDesiredExplicitSet {
    cap: usize,
    index: OwnerIndex<OwnerKey>,
    stamps: OrderedMap<OwnerKey, u64>,
    lru_counter: u64,
    planning_stats: PlanningStats,
}

impl View for AdmissionDesiredExplicitSet {
    type V = DesiredView;

    closed spec fn view(&self) -> DesiredView {
        DesiredView {
            cap: self.cap,
            groups: self.index@,
            stamps: self.stamps@,
            counter: self.lru_counter,
        }
    }
}

impl Default for AdmissionDesiredExplicitSet {
    fn default() -> (r: Self)
        ensures
            r.wf(),
            r@ == (DesiredView {
                cap: 25_000,
                groups: Map::empty(),
                stamps: Map::empty(),
                counter: 0,
            }),
            r.stats() == PlanningStats::zero(),
    {
        Self::new(25_000)
    }
}

/// The stamps with the counter advanced.
fn advance_lru_counter(stamps: &OrderedMap<OwnerKey, u64>, counter: u64) -> (r: Result<
    (OrderedMap<OwnerKey, u64>, u64),
    LruStampError,
>)
    requires
        stamps.wf(),
    ensures
        match r {
            Ok((map, next)) => {
                &&& map.wf()
                &&& counter_advanced(stamps@, counter) == Some((map@, next))
            },
            Err(LruStampError) => counter_advanced(stamps@, counter) is None,
        },
{
    if counter >= LRU_RENORMALIZE_THRESHOLD {
        proof {
            stamps.lemma_view();
        }
        let count: usize = stamps.len();
        if count as u128 + 1 > u64::MAX as u128 {
            return Err(LruStampError);
        }
        match touch_stamps::renormalize_stamps(stamps) {
            Some(map) => Ok((map, count as u64 + 1)),
            None => Err(LruStampError),
        }
    } else {
        Ok((stamps.duplicate(), counter + 1))
    }
}

proof fn lemma_restricted_physical(groups: OwnedGroups, done: Set<OwnerKey>, owner: OwnerKey)
    ensures
        owner_index::physical(groups.restrict(done.insert(owner))) == owner_index::physical(
            groups.restrict(done),
        ).union(owner_index::physical(groups.restrict(Set::empty().insert(owner)))),
{
    let all = groups.restrict(done.insert(owner));
    let part = groups.restrict(done);
    let one = groups.restrict(Set::empty().insert(owner));
    assert forall|pk: Pubkey| owner_index::physical(all).contains(pk) == owner_index::physical(
        part,
    ).union(owner_index::physical(one)).contains(pk) by {
        if owner_index::physical(all).contains(pk) {
            let o = choose|o: OwnerKey| all.dom().contains(o) && #[trigger] all[o].contains(pk);
            if o == owner {
                assert(one.dom().contains(o) && one[o].contains(pk));
            } else {
                assert(part.dom().contains(o) && part[o].contains(pk));
            }
        }
        if owner_index::physical(part).contains(pk) {
            let o = choose|o: OwnerKey| part.dom().contains(o) && #[trigger] part[o].contains(pk);
            assert(all.dom().contains(o) && all[o].contains(pk));
        }
        if owner_index::physical(one).contains(pk) {
            let o = choose|o: OwnerKey| one.dom().contains(o) && #[trigger] one[o].contains(pk);
            assert(all.dom().contains(o) && all[o].contains(pk));
        }
    }
    assert(owner_index::physical(all) =~= owner_index::physical(part).union(
        owner_index::physical(one),
    ));
}

/// An address that is not touched stays in the set.
proof fn lemma_untouched_stays(
    view: DesiredView,
    gone: Set<OwnerKey>,
    key: OwnerKey,
    listing: Seq<Pubkey>,
    pk: Pubkey,
)
    requires
        owner_index::physical(view.groups).contains(pk),
        !touched(view, gone, key, listing).contains(pk),
    ensures
        owner_index::physical(view.replaced(gone, key, listing)).contains(pk),
{
    let near = view.groups.restrict(gone.insert(key));
    let o = choose|o: OwnerKey|
        view.groups.dom().contains(o) && #[trigger] view.groups[o].contains(pk);
    if gone.contains(o) || o == key {
        assert(near.dom().contains(o) && near[o].contains(pk));
    }
    let after = view.replaced(gone, key, listing);
    assert(after.dom().contains(o) && after[o].contains(pk));
}

/// Which addresses remain when groups leave and one is set.
pub proof fn lemma_replaced_physical(
    view: DesiredView,
    gone: Set<OwnerKey>,
    key: OwnerKey,
    listing: Seq<Pubkey>,
    pk: Pubkey,
)
    ensures
        owner_index::physical(view.replaced(gone, key, listing)).contains(pk) == (listing.contains(
            pk,
        ) || exists|o: OwnerKey|
            #[trigger] owner_index::owners_of(view.groups, pk).contains(o) && o != key
                && !gone.contains(o)),
{
    let after = view.replaced(gone, key, listing);
    if owner_index::physical(after).contains(pk) {
        let o = choose|o: OwnerKey| after.dom().contains(o) && #[trigger] after[o].contains(pk);
        if o != key {
            assert(owner_index::owners_of(view.groups, pk).contains(o) && o != key
                && !gone.contains(o));
        }
    }
    if listing.contains(pk) {
        assert(after.dom().contains(key) && after[key].contains(pk));
    }
    if exists|o: OwnerKey|
        #[trigger] owner_index::owners_of(view.groups, pk).contains(o) && o != key && !gone.contains(
            o,
        ) {
        let o = choose|o: OwnerKey|
            #[trigger] owner_index::owners_of(view.groups, pk).contains(o) && o != key
                && !gone.contains(o);
        assert(after.dom().contains(o) && after[o].contains(pk));
    }
}

impl AdmissionDesiredExplicitSet {
    /// Every group has exactly one stamp, and the cap is positive.
    pub closed spec fn wf(&self) -> bool {
        &&& self.index.wf()
        &&& self.stamps.wf()
        &&& self.stamps@.dom() =~= self.index@.dom()
        &&& self.cap >= 1
    }

    /// The counters of planning.
    pub closed spec fn stats(&self) -> PlanningStats {
        self.planning_stats
    }

    /// Sets the counters of planning to zero.
    pub fn reset_planning_stats(&mut self)
        requires
            old(self).wf(),
        ensures
            final(self).wf(),
            final(self)@ == old(self)@,
            final(self).stats() == PlanningStats::zero(),
    {
        self.planning_stats = PlanningStats {
            full_graph_copies: 0,
            owner_edge_visits: 0,
            candidate_pops: 0,
        };
    }

    /// The counters of planning, which start anew.
    pub fn take_planning_stats(&mut self) -> (r: PlanningStats)
        requires
            old(self).wf(),
        ensures
            final(self).wf(),
            final(self)@ == old(self)@,
            r == old(self).stats(),
            final(self).stats() == PlanningStats::zero(),
    {
        let stats = self.planning_stats;
        self.reset_planning_stats();
        stats
    }

    /// What a well-formed set guarantees.
    pub proof fn lemma_wf(&self)
        requires
            self.wf(),
        ensures
            owner_index::groups_ok(self@.groups),
            self@.stamps.dom() =~= self@.groups.dom(),
            self@.cap >= 1,
            owner_index::physical(self@.groups).finite(),
            self@.len() <= usize::MAX,
    {
        self.index.lemma_physical();
        assert(self.index.owners.keys.len() == self.index.owners.keys@.len());
    }

    pub fn new(cap: usize) -> (r: Self)
        ensures
            r.wf(),
            r@ == (DesiredView {
                cap: if cap < 1 {
                    1
                } else {
                    cap
                },
                groups: Map::empty(),
                stamps: Map::empty(),
                counter: 0,
            }),
            r.stats() == PlanningStats::zero(),
    {
        Self::new_for_test(cap, 0)
    }

    /// An empty set with the counter already advanced.
    pub fn new_for_test(cap: usize, lru_counter: u64) -> (r: Self)
        ensures
            r.wf(),
            r@ == (DesiredView {
                cap: if cap < 1 {
                    1
                } else {
                    cap
                },
                groups: Map::empty(),
                stamps: Map::empty(),
                counter: lru_counter,
            }),
            r.stats() == PlanningStats::zero(),
    {
        let cap: usize = if cap < 1 {
            1
        } else {
            cap
        };
        AdmissionDesiredExplicitSet {
            cap,
            index: OwnerIndex::new(),
            stamps: OrderedMap::new(),
            lru_counter,
            planning_stats: PlanningStats {
                full_graph_copies: 0,
                owner_edge_visits: 0,
                candidate_pops: 0,
            },
        }
    }

    pub fn len(&self) -> (n: usize)
        requires
            self.wf(),
        ensures
            n == self@.len(),
    {
        self.index.len()
    }

    pub fn is_empty(&self) -> (r: bool)
        requires
            self.wf(),
        ensures
            r == (self@.len() == 0),
    {
        self.index.len() == 0
    }

    pub fn max_explicit_pubkeys(&self) -> (r: usize)
        ensures
            r == self@.cap,
    {
        self.cap
    }

    pub fn contains(&self, pubkey: &Pubkey) -> (r: bool)
        requires
            self.wf(),
        ensures
            r == owner_index::physical(self@.groups).contains(*pubkey),
    {
        self.index.contains(pubkey)
    }

    /// The distinct addresses, in order.
    pub fn snapshot_pubkeys(&self) -> (r: Vec<Pubkey>)
        requires
            self.wf(),
        ensures
            ordered::lists(r@, owner_index::physical(self@.groups)),
    {
        self.index.pubkeys()
    }

    /// All groups, by owner.
    pub fn snapshot_owner_groups(&self) -> (r: Vec<OwnerGroupSnapshot>)
        requires
            self.wf(),
        ensures
            ordered::lists(
                r@.map_values(|g: OwnerGroupSnapshot| g.owner),
                self@.groups.dom(),
            ),
            forall|i: int|
                0 <= i < r@.len() ==> (#[trigger] r@[i]).pubkeys@ == self@.groups[r@[i].owner],
    {
        let owners = self.index.all_owners();
        let mut out: Vec<OwnerGroupSnapshot> = Vec::new();
        let mut i: usize = 0;
        while i < owners.len()
            invariant
                self.wf(),
                ordered::lists(owners@, self@.groups.dom()),
                0 <= i <= owners@.len(),
                out@.len() == i,
                forall|j: int|
                    0 <= j < i ==> (#[trigger] out@[j]).owner == owners@[j] && out@[j].pubkeys@
                        == self@.groups[owners@[j]],
            decreases owners@.len() - i,
        {
            proof {
                assert(owners@.to_set().contains(owners@[i as int]));
            }
            match self.index.group(&owners[i]) {
                Some(keys) => {
                    out.push(
                        OwnerGroupSnapshot { owner: owners[i], pubkeys: ordered::copy_keys(keys) },
                    );
                },
                None => {},
            }
            i = i + 1;
        }
        proof {
            assert(out@.map_values(|g: OwnerGroupSnapshot| g.owner) =~= owners@);
        }
        out
    }

    /// Whether that many distinct wallet addresses could never fit.
    pub fn wallet_demand_exceeds_cap(&self, wallet_pubkeys: &[Pubkey]) -> (r: bool)
        ensures
            r == (wallet_pubkeys@.to_set().len() > self@.cap),
    {
        let keys = ordered::normalize(wallet_pubkeys);
        proof {
            ordered::lemma_sorted_no_duplicates(keys@);
        }
        keys.len() > self.cap
    }

    /// How far the set is over its cap.
    pub fn cap_overflow(&self) -> (r: i64)
        requires
            self.wf(),
        ensures
            r == if self@.len() <= self@.cap {
                0
            } else if self@.len() - self@.cap > i64::MAX {
                i64::MAX as int
            } else {
                self@.len() - self@.cap
            },
    {
        let len: usize = self.index.len();
        if len <= self.cap {
            return 0;
        }
        let overflow: usize = len - self.cap;
        if overflow as u128 > i64::MAX as u128 {
            i64::MAX
        } else {
            overflow as i64
        }
    }

    pub fn owner_refcount(&self, pubkey: &Pubkey) -> (n: usize)
        requires
            self.wf(),
        ensures
            n == owner_index::owners_of(self@.groups, *pubkey).len(),
    {
        self.index.refcount(pubkey)
    }

    /// Adds the addresses of a group to a list.
    fn add_group(&self, keys: &mut Vec<Pubkey>, owner: &OwnerKey)
        requires
            self.wf(),
            ordered::sorted(old(keys)@),
        ensures
            ordered::lists(
                final(keys)@,
                old(keys)@.to_set().union(
                    owner_index::physical(self@.groups.restrict(Set::empty().insert(*owner))),
                ),
            ),
    {
        let ghost before = keys@.to_set();
        let ghost one = self@.groups.restrict(Set::empty().insert(*owner));
        match self.index.group(owner) {
            Some(group) => {
                let mut k: usize = 0;
                while k < group.len()
                    invariant
                        0 <= k <= group@.len(),
                        ordered::sorted(keys@),
                        keys@.to_set() =~= before.union(group@.take(k as int).to_set()),
                    decreases group@.len() - k,
                {
                    proof {
                        ordered::lemma_take_step(group@, k as int);
                    }
                    let _ = ordered::add_key(keys, group[k]);
                    k = k + 1;
                }
                proof {
                    assert(group@.take(k as int) =~= group@);
                    assert forall|pk: Pubkey| owner_index::physical(one).contains(pk)
                        == group@.to_set().contains(pk) by {
                        if group@.contains(pk) {
                            assert(one.dom().contains(*owner) && one[*owner].contains(pk));
                        }
                    }
                }
            },
            None => {
                proof {
                    assert(owner_index::physical(one) =~= Set::empty());
                }
            },
        }
        proof {
            assert(keys@.to_set() =~= before.union(owner_index::physical(one)));
        }
    }

    /// The addresses that setting the group of `key` and taking `gone` out may add or free.
    fn touched_keys(&self, gone: &[OwnerKey], key: &OwnerKey, listing: &[Pubkey]) -> (r: Vec<Pubkey>)
        requires
            self.wf(),
            ordered::sorted(listing@),
        ensures
            ordered::lists(r@, touched(self@, gone@.to_set(), *key, listing@)),
    {
        let ghost groups = self@.groups;
        let mut keys = ordered::copy_keys(listing);
        self.add_group(&mut keys, key);
        let mut i: usize = 0;
        proof {
            assert(gone@.take(0).to_set().insert(*key) =~= Set::empty().insert(*key));
        }
        while i < gone.len()
            invariant
                self.wf(),
                groups == self@.groups,
                0 <= i <= gone@.len(),
                ordered::lists(
                    keys@,
                    touched(self@, gone@.take(i as int).to_set(), *key, listing@),
                ),
            decreases gone@.len() - i,
        {
            let ghost done = gone@.take(i as int).to_set().insert(*key);
            proof {
                ordered::lemma_take_step(gone@, i as int);
                lemma_restricted_physical(groups, done, gone@[i as int]);
                assert(gone@.take(i + 1).to_set().insert(*key) =~= done.insert(gone@[i as int]));
            }
            self.add_group(&mut keys, &gone[i]);
            proof {
                assert(keys@.to_set() =~= touched(
                    self@,
                    gone@.take(i + 1).to_set(),
                    *key,
                    listing@,
                ));
            }
            i = i + 1;
        }
        proof {
            assert(gone@.take(i as int) =~= gone@);
        }
        keys
    }

    /// How many addresses there would be with `gone` out and the group of `key` set. Only the
    /// holders of the touched addresses are looked at.
    fn projected_len(
        &self,
        gone: &[OwnerKey],
        key: &OwnerKey,
        listing: &[Pubkey],
        stats: &mut PlanningStats,
    ) -> (n: usize)
        requires
            self.wf(),
            ordered::sorted(gone@),
            ordered::sorted(listing@),
        ensures
            n == self@.projected(gone@.to_set(), *key, listing@),
            *final(stats) == old(stats).plus(
                PlanningCost {
                    visits: touched(self@, gone@.to_set(), *key, listing@).len(),
                    pops: 0,
                },
            ),
    {
        let ghost view = self@;
        let ghost after = owner_index::physical(view.replaced(gone@.to_set(), *key, listing@));
        let present = self.index.pubkeys();
        let near = self.touched_keys(gone, key, listing);
        let mut out: Vec<Pubkey> = Vec::new();
        let mut i: usize = 0;
        while i < present.len()
            invariant
                self.wf(),
                view == self@,
                after == owner_index::physical(view.replaced(gone@.to_set(), *key, listing@)),
                ordered::lists(present@, owner_index::physical(view.groups)),
                ordered::lists(near@, touched(view, gone@.to_set(), *key, listing@)),
                0 <= i <= present@.len(),
                ordered::lists(
                    out@,
                    present@.take(i as int).to_set().intersect(after).difference(near@.to_set()),
                ),
            decreases present@.len() - i,
        {
            let pk: Pubkey = present[i];
            proof {
                ordered::lemma_take_step(present@, i as int);
                assert(near@.contains(pk) == near@.to_set().contains(pk));
                assert(present@.to_set().contains(pk));
                if !near@.contains(pk) {
                    lemma_untouched_stays(view, gone@.to_set(), *key, listing@, pk);
                }
            }
            if !ordered::has(near.as_slice(), &pk) {
                let _ = ordered::add_key(&mut out, pk);
            }
            i = i + 1;
        }
        proof {
            assert(present@.take(i as int) =~= present@);
        }
        let ghost rest = present@.to_set().intersect(after).difference(near@.to_set());
        let mut k: usize = 0;
        while k < near.len()
            invariant
                self.wf(),
                view == self@,
                ordered::sorted(gone@),
                ordered::sorted(listing@),
                after == owner_index::physical(view.replaced(gone@.to_set(), *key, listing@)),
                0 <= k <= near@.len(),
                ordered::lists(out@, rest.union(near@.take(k as int).to_set().intersect(after))),
                *stats == old(stats).plus(PlanningCost { visits: k as nat, pops: 0 }),
            decreases near@.len() - k,
        {
            let pk: Pubkey = near[k];
            proof {
                ordered::lemma_take_step(near@, k as int);
                lemma_replaced_physical(view, gone@.to_set(), *key, listing@, pk);
            }
            stats.record_owner_edge_visit();
            if ordered::has(listing, &pk) || self.held_by_other(&pk, key, gone) {
                let _ = ordered::add_key(&mut out, pk);
            }
            k = k + 1;
        }
        proof {
            assert(near@.take(k as int) =~= near@);
            assert forall|pk: Pubkey| out@.to_set().contains(pk) == after.contains(pk) by {
                lemma_replaced_physical(view, gone@.to_set(), *key, listing@, pk);
                owner_index::lemma_physical_owner(view.groups, pk);
                if after.contains(pk) && !listing@.contains(pk) {
                    let o = choose|o: OwnerKey|
                        #[trigger] owner_index::owners_of(view.groups, pk).contains(o) && o != *key
                            && !gone@.to_set().contains(o);
                    assert(owner_index::owners_of(view.groups, pk).contains(o));
                }
                if listing@.contains(pk) {
                    assert(listing@.to_set().contains(pk));
                }
            }
            assert(out@.to_set() =~= after);
            ordered::lemma_sorted_no_duplicates(out@);
            ordered::lemma_sorted_no_duplicates(near@);
        }
        out.len()
    }

    /// Whether an owner other than `key` that is not in `gone` holds the address.
    fn held_by_other(&self, pk: &Pubkey, key: &OwnerKey, gone: &[OwnerKey]) -> (r: bool)
        requires
            self.wf(),
            ordered::sorted(gone@),
        ensures
            r == exists|o: OwnerKey|
                #[trigger] owner_index::owners_of(self@.groups, *pk).contains(o) && o != *key
                    && !gone@.to_set().contains(o),
    {
        let owners = self.index.owners(pk);
        let mut i: usize = 0;
        while i < owners.len()
            invariant
                self.wf(),
                ordered::sorted(gone@),
                ordered::lists(owners@, owner_index::owners_of(self@.groups, *pk)),
                0 <= i <= owners@.len(),
                forall|j: int|
                    0 <= j < i ==> #[trigger] owners@[j] == *key || gone@.to_set().contains(
                        owners@[j],
                    ),
            decreases owners@.len() - i,
        {
            proof {
                assert(owners@.to_set().contains(owners@[i as int]));
                assert(gone@.to_set().contains(owners@[i as int]) == gone@.contains(
                    owners@[i as int],
                ));
            }
            if !owners[i].same(key) && !ordered::has(gone, &owners[i]) {
                return true;
            }
            i = i + 1;
        }
        proof {
            assert forall|o: OwnerKey|
                owner_index::owners_of(self@.groups, *pk).contains(o) && o
                    != *key implies #[trigger] gone@.to_set().contains(o) by {
                assert(owners@.to_set().contains(o));
                let j = choose|j: int| 0 <= j < owners@.len() && owners@[j] == o;
                assert(owners@[j] == *key || gone@.to_set().contains(owners@[j]));
            }
        }
        false
    }

    /// The owners that may go for `incoming`, in eviction order.
    fn eviction_candidates(&self, incoming: &OwnerKey) -> (r: Vec<AgedKey<OwnerKey>>)
        requires
            self.wf(),
        ensures
            r@ == candidates(self@, *incoming),
            r@.map_values(|k: AgedKey<OwnerKey>| k.owner).no_duplicates(),
            forall|i: int|
                0 <= i < r@.len() ==> self@.groups.dom().contains((#[trigger] r@[i]).owner),
    {
        let ghost view = self@;
        let ghost all = candidate_set(view, *incoming);
        let ghost names = self.stamps.keys@;
        let mut out: Vec<AgedKey<OwnerKey>> = Vec::new();
        let mut i: usize = 0;
        while i < self.stamps.keys.len()
            invariant
                self.wf(),
                view == self@,
                names == self.stamps.keys@,
                all == candidate_set(view, *incoming),
                0 <= i <= names.len(),
                ordered::sorted(out@),
                out@.to_set() =~= all.filter(
                    |k: AgedKey<OwnerKey>| names.take(i as int).to_set().contains(k.owner),
                ),
            decreases names.len() - i,
        {
            let owner: OwnerKey = self.stamps.keys[i];
            proof {
                self.stamps.lemma_view();
                ordered::lemma_take_step(names, i as int);
                assert(self.stamps@.dom().contains(names[i as int]));
            }
            let ghost before = out@.to_set();
            if !owner.same(incoming) && can_evict_for_incoming(owner.consumer, incoming.consumer) {
                let key = AgedKey {
                    priority: owner.consumer.eviction_class(),
                    last_touch: self.stamps.values[i],
                    owner,
                };
                proof {
                    assert(all.contains(key));
                }
                let _ = ordered::add_key(&mut out, key);
            }
            proof {
                let step = all.filter(
                    |k: AgedKey<OwnerKey>| names.take(i + 1).to_set().contains(k.owner),
                );
                assert forall|k: AgedKey<OwnerKey>| out@.to_set().contains(k) == step.contains(k) by {
                    if all.contains(k) && k.owner == owner {
                        assert(k == victim_key(view, owner));
                    }
                }
                assert(out@.to_set() =~= step);
            }
            i = i + 1;
        }
        proof {
            self.stamps.lemma_view();
            assert(names.take(i as int) =~= names);
            assert forall|k: AgedKey<OwnerKey>| out@.to_set().contains(k) == all.contains(k) by {
                if all.contains(k) {
                    assert(names.to_set().contains(k.owner));
                }
            }
            ordered::lemma_in_order(out@, all);
            let owners = out@.map_values(|k: AgedKey<OwnerKey>| k.owner);
            assert forall|a: int, b: int| 0 <= a < owners.len() && 0 <= b < owners.len() && a
                != b implies owners[a] != owners[b] by {
                assert(out@.to_set().contains(out@[a]));
                assert(out@.to_set().contains(out@[b]));
                if a < b {
                    assert(out@[a].rank() < out@[b].rank());
                } else {
                    assert(out@[b].rank() < out@[a].rank());
                }
            }
            assert forall|j: int| 0 <= j < out@.len() implies view.groups.dom().contains(
                (#[trigger] out@[j]).owner,
            ) by {
                assert(out@.to_set().contains(out@[j]));
            }
        }
        out
    }

    /// One pass over the candidates.
    #[verifier::rlimit(40)]
    fn eviction_pass(
        &self,
        key: &OwnerKey,
        listing: &[Pubkey],
        keys: &[AgedKey<OwnerKey>],
        projected: usize,
        victims: &mut Vec<OwnerKey>,
        gone: &mut Vec<OwnerKey>,
        stats: &mut PlanningStats,
    ) -> (n: usize)
        requires
            self.wf(),
            ordered::sorted(listing@),
            ordered::lists(old(gone)@, old(victims)@.to_set()),
            projected == self@.projected(old(victims)@.to_set(), *key, listing@),
        ensures
            ordered::lists(final(gone)@, final(victims)@.to_set()),
            final(victims)@ == pass(self@, *key, listing@, keys@, 0, old(victims)@),
            n == self@.projected(final(victims)@.to_set(), *key, listing@),
            *final(stats) == old(stats).plus(
                pass_cost(self@, *key, listing@, keys@, 0, old(victims)@),
            ),
    {
        let ghost start = victims@;
        let ghost goal = pass(self@, *key, listing@, keys@, 0, start);
        let ghost total = pass_cost(self@, *key, listing@, keys@, 0, start);
        let ghost mut spent = PlanningCost::nothing();
        let mut i: usize = 0;
        let mut projected: usize = projected;
        while i < keys.len() && projected > self.cap
            invariant
                self.wf(),
                ordered::sorted(listing@),
                ordered::lists(gone@, victims@.to_set()),
                0 <= i <= keys@.len(),
                projected == self@.projected(victims@.to_set(), *key, listing@),
                goal == pass(self@, *key, listing@, keys@, i as int, victims@),
                total == spent.and(
                    pass_cost(self@, *key, listing@, keys@, i as int, victims@),
                ),
                *stats == old(stats).plus(spent),
            decreases keys@.len() - i,
        {
            let owner: OwnerKey = keys[i].owner;
            proof {
                assert(gone@.contains(owner) == gone@.to_set().contains(owner));
                assert(victims@.contains(owner) == victims@.to_set().contains(owner));
            }
            if !ordered::has(gone.as_slice(), &owner) {
                let mut trial = ordered::copy_keys(gone.as_slice());
                let _ = ordered::add_key(&mut trial, owner);
                let ghost next = victims@.push(owner);
                proof {
                    let n = victims@.len() as int;
                    assert(next.take(n) =~= victims@);
                    ordered::lemma_take_step(next, n);
                    assert(next.take(n + 1) =~= next);
                    assert(trial@.to_set() =~= next.to_set());
                }
                stats.record_candidate_pop();
                let after: usize = self.projected_len(trial.as_slice(), key, listing, stats);
                proof {
                    spent =
                    spent.and(
                        PlanningCost {
                            visits: touched(self@, next.to_set(), *key, listing@).len(),
                            pops: 1,
                        },
                    );
                }
                if after < projected {
                    victims.push(owner);
                    *gone = trial;
                    projected = after;
                }
            }
            i = i + 1;
        }
        projected
    }

    /// Which groups go for the incoming one, in order; `None` if that is not enough.
    fn plan_evictions(
        &self,
        key: &OwnerKey,
        listing: &[Pubkey],
        projected: usize,
        stats: &mut PlanningStats,
    ) -> (r: Option<Vec<OwnerKey>>)
        requires
            self.wf(),
            ordered::sorted(listing@),
            projected == self@.projected(Set::empty(), *key, listing@),
        ensures
            *final(stats) == old(stats).plus(plan_cost(self@, *key, listing@)),
            match r {
                Some(victims) => {
                    &&& victims@ == planned_victims(self@, *key, listing@)
                    &&& self@.projected(victims@.to_set(), *key, listing@) <= self@.cap
                },
                None => self@.projected(
                    planned_victims(self@, *key, listing@).to_set(),
                    *key,
                    listing@,
                ) > self@.cap,
            },
    {
        let keys = self.eviction_candidates(key);
        let mut victims: Vec<OwnerKey> = Vec::new();
        let mut gone: Vec<OwnerKey> = Vec::new();
        proof {
            assert(gone@.to_set() =~= victims@.to_set());
            assert(victims@ =~= Seq::empty());
            assert(victims@.to_set() =~= Set::empty());
        }
        let projected: usize = self.eviction_pass(
            key,
            listing,
            keys.as_slice(),
            projected,
            &mut victims,
            &mut gone,
            stats,
        );
        let projected: usize = self.eviction_pass(
            key,
            listing,
            keys.as_slice(),
            projected,
            &mut victims,
            &mut gone,
            stats,
        );
        if projected > self.cap {
            None
        } else {
            Some(victims)
        }
    }
}

fn can_evict_for_incoming(victim: ConsumerId, incoming: ConsumerId) -> (r: bool)
    ensures
        r == may_evict(victim, incoming),
{
    if victim == ConsumerId::Wallet {
        return false;
    }
    victim.eviction_class() <= incoming.eviction_class()
}

/// The victims of a plan are candidates, each named once.
pub proof fn lemma_pass(
    view: DesiredView,
    incoming: OwnerKey,
    listing: Seq<Pubkey>,
    keys: Seq<AgedKey<OwnerKey>>,
    i: int,
    gone: Seq<OwnerKey>,
)
    requires
        0 <= i <= keys.len(),
        gone.no_duplicates(),
    ensures
        ({
            let r = pass(view, incoming, listing, keys, i, gone);
            &&& r.no_duplicates()
            &&& forall|o: OwnerKey| #[trigger]
                r.contains(o) ==> gone.contains(o) || exists|j: int|
                    0 <= j < keys.len() && (#[trigger] keys[j]).owner == o
        }),
    decreases keys.len() - i,
{
    if i < keys.len() && view.projected(gone.to_set(), incoming, listing) > view.cap {
        let next = gone.push(keys[i].owner);
        if !gone.contains(keys[i].owner) && view.projected(next.to_set(), incoming, listing)
            < view.projected(gone.to_set(), incoming, listing) {
            lemma_pass(view, incoming, listing, keys, i + 1, next);
            let r = pass(view, incoming, listing, keys, i + 1, next);
            assert forall|o: OwnerKey| #[trigger] r.contains(o) implies gone.contains(o)
                || exists|j: int| 0 <= j < keys.len() && (#[trigger] keys[j]).owner == o by {
                if next.contains(o) && !gone.contains(o) {
                    let p = choose|p: int| 0 <= p < next.len() && next[p] == o;
                    if p < gone.len() {
                        assert(gone[p] == o);
                    }
                    assert(keys[i].owner == o);
                }
            }
        } else {
            lemma_pass(view, incoming, listing, keys, i + 1, gone);
        }
    }
}

/// Planned victims are other groups that the newcomer may push out.
pub proof fn victims_may_go(view: DesiredView, incoming: OwnerKey, listing: Seq<Pubkey>)
    requires
        view.groups.dom().finite(),
    ensures
        planned_victims(view, incoming, listing).no_duplicates(),
        forall|o: OwnerKey| #[trigger]
            planned_victims(view, incoming, listing).contains(o) ==> view.groups.dom().contains(o)
                && o != incoming && may_evict(o.consumer, incoming.consumer),
{
    let keys = candidates(view, incoming);
    lemma_candidates(view, incoming);
    let first = pass(view, incoming, listing, keys, 0, Seq::empty());
    lemma_pass(view, incoming, listing, keys, 0, Seq::empty());
    lemma_pass(view, incoming, listing, keys, 0, first);
    assert forall|o: OwnerKey| #[trigger]
        planned_victims(view, incoming, listing).contains(o) implies view.groups.dom().contains(o)
        && o != incoming && may_evict(o.consumer, incoming.consumer) by {
        let j = if first.contains(o) {
            choose|j: int| 0 <= j < keys.len() && (#[trigger] keys[j]).owner == o
        } else {
            choose|j: int| 0 <= j < keys.len() && (#[trigger] keys[j]).owner == o
        };
        assert(keys.to_set().contains(keys[j]));
    }
}

proof fn lemma_candidates(view: DesiredView, incoming: OwnerKey)
    requires
        view.groups.dom().finite(),
    ensures
        ordered::lists(candidates(view, incoming), candidate_set(view, incoming)),
{
    lemma_candidates_finite(view, incoming, view.groups.dom());
    assert(candidate_set(view, incoming).filter(
        |k: AgedKey<OwnerKey>| view.groups.dom().contains(k.owner),
    ) =~= candidate_set(view, incoming));
    ordered::lemma_in_order_lists(candidate_set(view, incoming));
}

proof fn lemma_candidates_finite(view: DesiredView, incoming: OwnerKey, owners: Set<OwnerKey>)
    requires
        owners.finite(),
    ensures
        candidate_set(view, incoming).filter(
            |k: AgedKey<OwnerKey>| owners.contains(k.owner),
        ).finite(),
    decreases owners.len(),
{
    let part = candidate_set(view, incoming).filter(
        |k: AgedKey<OwnerKey>| owners.contains(k.owner),
    );
    if owners.len() == 0 {
        assert(owners =~= Set::empty());
        assert(part =~= Set::empty());
    } else {
        let o = owners.choose();
        let rest = owners.remove(o);
        lemma_candidates_finite(view, incoming, rest);
        let smaller = candidate_set(view, incoming).filter(
            |k: AgedKey<OwnerKey>| rest.contains(k.owner),
        );
        assert(part.subset_of(smaller.insert(victim_key(view, o))));
        vstd::set_lib::lemma_len_subset(part, smaller.insert(victim_key(view, o)));
    }
}

impl AdmissionDesiredExplicitSet {
    /// The addresses of wallet groups other than `but`.
    fn wallet_keys(&self, but: Option<OwnerKey>) -> (r: Vec<Pubkey>)
        requires
            self.wf(),
        ensures
            ordered::lists(r@, self@.wallet_addresses(but)),
    {
        let ghost groups = self@.groups;
        let owners = self.index.all_owners();
        let mut keys: Vec<Pubkey> = Vec::new();
        let mut i: usize = 0;
        while i < owners.len()
            invariant
                self.wf(),
                groups == self@.groups,
                ordered::lists(owners@, groups.dom()),
                0 <= i <= owners@.len(),
                ordered::sorted(keys@),
                forall|pk: Pubkey| #[trigger]
                    keys@.to_set().contains(pk) <==> exists|j: int|
                        0 <= j < i && counts_for_wallet(#[trigger] owners@[j], but)
                            && groups[owners@[j]].contains(pk),
            decreases owners@.len() - i,
        {
            proof {
                assert(owners@.to_set().contains(owners@[i as int]));
            }
            let ghost before = keys@.to_set();
            let excluded: bool = match &but {
                Some(other) => other.same(&owners[i]),
                None => false,
            };
            if owners[i].consumer == ConsumerId::Wallet && !excluded {
                match self.index.group(&owners[i]) {
                    Some(group) => {
                        let mut k: usize = 0;
                        while k < group.len()
                            invariant
                                0 <= k <= group@.len(),
                                ordered::sorted(keys@),
                                keys@.to_set() =~= before.union(group@.take(k as int).to_set()),
                            decreases group@.len() - k,
                        {
                            proof {
                                ordered::lemma_take_step(group@, k as int);
                            }
                            let _ = ordered::add_key(&mut keys, group[k]);
                            k = k + 1;
                        }
                        proof {
                            assert(group@.take(k as int) =~= group@);
                        }
                    },
                    None => {},
                }
            }
            proof {
                assert forall|pk: Pubkey| #[trigger]
                    keys@.to_set().contains(pk) <==> exists|j: int|
                        0 <= j < i + 1 && counts_for_wallet(#[trigger] owners@[j], but)
                            && groups[owners@[j]].contains(pk) by {
                    if before.contains(pk) {
                        let j = choose|j: int|
                            0 <= j < i && counts_for_wallet(#[trigger] owners@[j], but)
                                && groups[owners@[j]].contains(pk);
                        assert(counts_for_wallet(owners@[j], but));
                    } else if keys@.to_set().contains(pk) {
                        assert(counts_for_wallet(owners@[i as int], but));
                        assert(groups[owners@[i as int]].contains(pk));
                    }
                    if exists|j: int|
                        0 <= j < i + 1 && counts_for_wallet(#[trigger] owners@[j], but)
                            && groups[owners@[j]].contains(pk) {
                        let j = choose|j: int|
                            0 <= j < i + 1 && counts_for_wallet(#[trigger] owners@[j], but)
                                && groups[owners@[j]].contains(pk);
                        if j < i {
                            assert(before.contains(pk));
                        }
                    }
                }
            }
            i = i + 1;
        }
        proof {
            let held = self@.wallet_addresses(but);
            let sub = groups.restrict(
                groups.dom().filter(
                    |o: OwnerKey| o.consumer == ConsumerId::Wallet && but != Some(o),
                ),
            );
            assert forall|pk: Pubkey| keys@.to_set().contains(pk) == held.contains(pk) by {
                if keys@.to_set().contains(pk) {
                    let j = choose|j: int|
                        0 <= j < owners@.len() && counts_for_wallet(#[trigger] owners@[j], but)
                            && groups[owners@[j]].contains(pk);
                    assert(owners@.to_set().contains(owners@[j]));
                    assert(sub.dom().contains(owners@[j]) && sub[owners@[j]].contains(pk));
                }
                if held.contains(pk) {
                    let o = choose|o: OwnerKey|
                        sub.dom().contains(o) && #[trigger] sub[o].contains(pk);
                    assert(owners@.to_set().contains(o));
                    let j = choose|j: int| 0 <= j < owners@.len() && owners@[j] == o;
                    assert(counts_for_wallet(owners@[j], but));
                }
            }
            assert(keys@.to_set() =~= held);
        }
        keys
    }

    /// Distinct wallet addresses if the group of `key` became `listing`.
    fn wallet_demand_after(&self, key: &OwnerKey, listing: &[Pubkey]) -> (n: usize)
        requires
            self.wf(),
        ensures
            n == self@.wallet_addresses(Some(*key)).union(listing@.to_set()).len(),
    {
        let mut keys = self.wallet_keys(Some(*key));
        let ghost base = keys@.to_set();
        let mut i: usize = 0;
        while i < listing.len()
            invariant
                0 <= i <= listing@.len(),
                ordered::sorted(keys@),
                keys@.to_set() =~= base.union(listing@.take(i as int).to_set()),
            decreases listing@.len() - i,
        {
            proof {
                ordered::lemma_take_step(listing@, i as int);
            }
            let _ = ordered::add_key(&mut keys, listing[i]);
            i = i + 1;
        }
        proof {
            assert(listing@.take(i as int) =~= listing@);
            assert(keys@.to_set() =~= self@.wallet_addresses(Some(*key)).union(listing@.to_set()));
            ordered::lemma_sorted_no_duplicates(keys@);
        }
        keys.len()
    }

    /// The keys that are not in the set.
    fn untracked(&self, keys: &[Pubkey]) -> (r: Vec<Pubkey>)
        requires
            self.wf(),
        ensures
            ordered::lists(r@, self@.fresh(keys@)),
    {
        let ghost present = owner_index::physical(self@.groups);
        let mut out: Vec<Pubkey> = Vec::new();
        let mut i: usize = 0;
        while i < keys.len()
            invariant
                self.wf(),
                present == owner_index::physical(self@.groups),
                0 <= i <= keys@.len(),
                ordered::lists(out@, keys@.take(i as int).to_set().difference(present)),
            decreases keys@.len() - i,
        {
            proof {
                ordered::lemma_take_step(keys@, i as int);
            }
            if !self.index.contains(&keys[i]) {
                let _ = ordered::add_key(&mut out, keys[i]);
            }
            i = i + 1;
        }
        proof {
            assert(keys@.take(i as int) =~= keys@);
        }
        out
    }

    /// Takes the victims out and returns them with their addresses.
    fn evict_all(&mut self, victims: &[OwnerKey]) -> (r: Vec<EvictedGroup>)
        requires
            old(self).wf(),
            victims@.no_duplicates(),
            forall|o: OwnerKey| #[trigger]
                victims@.contains(o) ==> old(self)@.groups.dom().contains(o),
        ensures
            final(self).wf(),
            final(self)@.cap == old(self)@.cap,
            final(self)@.counter == old(self)@.counter,
            final(self).stats() == old(self).stats(),
            final(self)@.groups =~= old(self)@.groups.remove_keys(victims@.to_set()),
            final(self)@.stamps =~= old(self)@.stamps.remove_keys(victims@.to_set()),
            events_of(r@) =~= victims@.map_values(|o: OwnerKey| (o, old(self)@.groups[o])),
    {
        let ghost groups = self@.groups;
        let ghost stamps = self@.stamps;
        let mut out: Vec<EvictedGroup> = Vec::new();
        let mut i: usize = 0;
        proof {
            assert(victims@.take(0).to_set() =~= Set::<OwnerKey>::empty());
            assert(groups.remove_keys(Set::empty()) =~= groups);
            assert(stamps.remove_keys(Set::empty()) =~= stamps);
        }
        while i < victims.len()
            invariant
                self.wf(),
                self@.cap == old(self)@.cap,
                self@.counter == old(self)@.counter,
                self.stats() == old(self).stats(),
                groups == old(self)@.groups,
                stamps == old(self)@.stamps,
                victims@.no_duplicates(),
                forall|o: OwnerKey| #[trigger] victims@.contains(o) ==> groups.dom().contains(o),
                0 <= i <= victims@.len(),
                self@.groups =~= groups.remove_keys(victims@.take(i as int).to_set()),
                self@.stamps =~= stamps.remove_keys(victims@.take(i as int).to_set()),
                events_of(out@) =~= victims@.map_values(|o: OwnerKey| (o, groups[o])).take(i as int),
            decreases victims@.len() - i,
        {
            let owner: OwnerKey = victims[i];
            proof {
                ordered::lemma_take_step(victims@, i as int);
                assert(victims@.contains(owner));
                assert(!victims@.take(i as int).to_set().contains(owner)) by {
                    if victims@.take(i as int).to_set().contains(owner) {
                        let p = choose|p: int| 0 <= p < i && victims@.take(i as int)[p] == owner;
                        assert(victims@[p] == victims@[i as int]);
                    }
                }
                assert(groups.remove_keys(victims@.take(i as int).to_set()).remove(owner)
                    =~= groups.remove_keys(victims@.take(i + 1).to_set()));
                assert(stamps.remove_keys(victims@.take(i as int).to_set()).remove(owner)
                    =~= stamps.remove_keys(victims@.take(i + 1).to_set()));
            }
            let ghost events = events_of(out@);
            let pubkeys: Vec<Pubkey> = match self.index.take(&owner) {
                Some(keys) => keys,
                None => Vec::new(),
            };
            let _ = self.stamps.remove(&owner);
            out.push(EvictedGroup { owner, pubkeys });
            proof {
                assert(events_of(out@) =~= events.push((owner, groups[owner])));
            }
            i = i + 1;
        }
        proof {
            assert(victims@.take(i as int) =~= victims@);
        }
        out
    }

    /// Admits a group and returns, besides the result, the evicted groups in the order they went.
    #[verifier::rlimit(40)]
    pub fn try_admit_group_recorded(
        &mut self,
        consumer: ConsumerId,
        owner: Pubkey,
        pubkeys: &[Pubkey],
    ) -> (r: (AdmissionResult, Vec<EvictedGroup>))
        requires
            old(self).wf(),
        ensures
            final(self).wf(),
            admit_outcome(
                old(self)@,
                OwnerKey { consumer, owner },
                pubkeys@,
                r.0,
                final(self)@,
            ),
            events_of(r.1@) =~= admit_events(
                old(self)@,
                OwnerKey { consumer, owner },
                pubkeys@,
                r.0,
            ),
            final(self).stats() == old(self).stats().plus(
                admit_cost(old(self)@, OwnerKey { consumer, owner }, pubkeys@),
            ),
    {
        let none: Vec<EvictedGroup> = Vec::new();
        proof {
            assert(events_of(none@) =~= Seq::empty());
        }
        let listing = ordered::normalize(pubkeys);
        if listing.len() == 0 {
            return (AdmissionResult::RejectedInvalidGroup, none);
        }
        let key = OwnerKey::new(consumer, owner);
        let ghost before = self@;
        proof {
            self.lemma_wf();
            ordered::lemma_in_order(listing@, pubkeys@.to_set());
            assert(listing@.to_set().contains(listing@[0]));
        }
        let unchanged: bool = match self.index.group(&key) {
            Some(group) => ordered::same_keys(group, listing.as_slice()),
            None => false,
        };
        if unchanged {
            match advance_lru_counter(&self.stamps, self.lru_counter) {
                Err(LruStampError) => {
                    return (AdmissionResult::RejectedCap, none);
                },
                Ok((mut stamps, counter)) => {
                    let _ = stamps.insert(key, counter);
                    self.stamps = stamps;
                    self.lru_counter = counter;
                    proof {
                        assert(before.stamps.remove_keys(Set::empty()) =~= before.stamps);
                        assert(before.replaced(Set::empty(), key, listing@) =~= before.groups);
                        lemma_advanced_dom(before.stamps, before.counter);
                        assert(self@ =~= before.committed(Set::empty(), key, listing@));
                    }
                    return (AdmissionResult::OwnerAddedNoNewPubkey, none);
                },
            }
        }
        let empty: Vec<OwnerKey> = Vec::new();
        proof {
            assert(empty@.to_set() =~= Set::empty());
        }
        let mut stats = self.planning_stats;
        let projected: usize = self.projected_len(
            empty.as_slice(),
            &key,
            listing.as_slice(),
            &mut stats,
        );
        self.planning_stats = stats;
        if projected > self.cap && consumer == ConsumerId::Wallet && self.wallet_demand_after(
            &key,
            listing.as_slice(),
        ) > self.cap {
            return (AdmissionResult::RejectedProtected, none);
        }
        let plan = self.plan_evictions(&key, listing.as_slice(), projected, &mut stats);
        self.planning_stats = stats;
        let victims = match plan {
            None => {
                return (AdmissionResult::RejectedCap, none);
            },
            Some(victims) => victims,
        };
        proof {
            victims_may_go(before, key, listing@);
        }
        let survivors = touch_stamps::drop_stamps(&self.stamps, victims.as_slice());
        let (mut stamps, counter) = match advance_lru_counter(&survivors, self.lru_counter) {
            Err(LruStampError) => {
                return (AdmissionResult::RejectedCap, none);
            },
            Ok(advanced) => advanced,
        };
        let added_pubkeys = self.untracked(listing.as_slice());
        let evicted = self.evict_all(victims.as_slice());
        let evicted_owners = ordered::normalize(victims.as_slice());
        let _ = stamps.insert(key, counter);
        let ghost listed = listing@;
        self.index.put(key, listing);
        self.stamps = stamps;
        self.lru_counter = counter;
        proof {
            let gone = victims@.to_set();
            lemma_advanced_dom(before.stamps.remove_keys(gone), before.counter);
            assert(self@ =~= before.committed(gone, key, listed));
            assert(before.fresh(listed) =~= before.fresh(pubkeys@));
        }
        (AdmissionResult::Inserted { added_pubkeys, evicted_owners }, evicted)
    }

    /// Admits a group, evicting others when the cap has no room.
    pub fn try_admit_group(&mut self, consumer: ConsumerId, owner: Pubkey, pubkeys: &[Pubkey]) -> (r:
        AdmissionResult)
        requires
            old(self).wf(),
        ensures
            final(self).wf(),
            admit_outcome(old(self)@, OwnerKey { consumer, owner }, pubkeys@, r, final(self)@),
            final(self).stats() == old(self).stats().plus(
                admit_cost(old(self)@, OwnerKey { consumer, owner }, pubkeys@),
            ),
    {
        let (result, _) = self.try_admit_group_recorded(consumer, owner, pubkeys);
        result
    }

    /// Admits a group and tells the observer of every evicted one, in the order they went.
    pub fn try_admit_group_observed<Obs: AdmissionObserver>(
        &mut self,
        consumer: ConsumerId,
        owner: Pubkey,
        pubkeys: &[Pubkey],
        observer: &mut Obs,
    ) -> (r: AdmissionResult)
        requires
            old(self).wf(),
        ensures
            final(self).wf(),
            admit_outcome(old(self)@, OwnerKey { consumer, owner }, pubkeys@, r, final(self)@),
            final(self).stats() == old(self).stats().plus(
                admit_cost(old(self)@, OwnerKey { consumer, owner }, pubkeys@),
            ),
            ({
                let events = admit_events(
                    old(self)@,
                    OwnerKey { consumer, owner },
                    pubkeys@,
                    r,
                );
                exists|states: Seq<Obs>|
                    {
                        &&& #[trigger] leads(
                            states,
                            *old(observer),
                            *final(observer),
                            events.len(),
                        )
                        &&& forall|i: int, before: Obs, after: Obs| #[trigger]
                            step_leads(states, i, before, after) ==> exists|
                                o: &mut Obs,
                                keys: &[Pubkey],
                            |
                                {
                                    &&& *o == before
                                    &&& *final(o) == after
                                    &&& keys@ == events[i].1
                                    &&& #[trigger] call_ensures(
                                        Obs::on_group_evicted,
                                        (o, events[i].0, keys),
                                        (),
                                    )
                                }
                    }
            }),
    {
        let (result, evicted) = self.try_admit_group_recorded(consumer, owner, pubkeys);
        notify(evicted.as_slice(), observer);
        result
    }

    /// Marks a group as recently used.
    pub fn touch_group(&mut self, consumer: ConsumerId, owner: Pubkey) -> (r: bool)
        requires
            old(self).wf(),
        ensures
            final(self).wf(),
            final(self).stats() == old(self).stats(),
            ({
                let key = OwnerKey { consumer, owner };
                &&& r == (old(self)@.groups.dom().contains(key) && counter_advanced(
                    old(self)@.stamps,
                    old(self)@.counter,
                ) is Some)
                &&& final(self)@ == if r {
                    old(self)@.committed(Set::empty(), key, old(self)@.groups[key])
                } else {
                    old(self)@
                }
            }),
    {
        let key = OwnerKey::new(consumer, owner);
        let ghost before = self@;
        if !self.index.contains_owner(&key) {
            return false;
        }
        match advance_lru_counter(&self.stamps, self.lru_counter) {
            Err(LruStampError) => false,
            Ok((mut stamps, counter)) => {
                let _ = stamps.insert(key, counter);
                self.stamps = stamps;
                self.lru_counter = counter;
                proof {
                    assert(before.stamps.remove_keys(Set::empty()) =~= before.stamps);
                    assert(before.replaced(Set::empty(), key, before.groups[key])
                        =~= before.groups);
                    lemma_advanced_dom(before.stamps, before.counter);
                }
                true
            },
        }
    }
}

/// The states lead from `first` to `last` in so many steps.
pub open spec fn leads<Obs>(states: Seq<Obs>, first: Obs, last: Obs, steps: nat) -> bool {
    &&& states.len() == steps + 1
    &&& states[0] == first
    &&& states.last() == last
}

/// The `i`-th step leads from `before` to `after`.
pub open spec fn step_leads<Obs>(states: Seq<Obs>, i: int, before: Obs, after: Obs) -> bool {
    &&& 0 <= i < states.len() - 1
    &&& states[i] == before
    &&& states[i + 1] == after
}

/// Tells the observer of each evicted group in turn.
fn notify<Obs: AdmissionObserver>(evicted: &[EvictedGroup], observer: &mut Obs)
    ensures
        exists|states: Seq<Obs>|
            {
                &&& #[trigger] leads(
                    states,
                    *old(observer),
                    *final(observer),
                    events_of(evicted@).len(),
                )
                &&& forall|i: int, before: Obs, after: Obs| #[trigger]
                    step_leads(states, i, before, after) ==> exists|o: &mut Obs, keys: &[Pubkey]|
                        {
                            &&& *o == before
                            &&& *final(o) == after
                            &&& keys@ == events_of(evicted@)[i].1
                            &&& #[trigger] call_ensures(
                                Obs::on_group_evicted,
                                (o, events_of(evicted@)[i].0, keys),
                                (),
                            )
                        }
            },
{
    let ghost events = events_of(evicted@);
    let ghost mut states: Seq<Obs> = seq![*observer];
    let mut i: usize = 0;
    while i < evicted.len()
        invariant
            0 <= i <= evicted@.len(),
            events == events_of(evicted@),
            leads(states, *old(observer), *observer, i as nat),
            forall|j: int, before: Obs, after: Obs| #[trigger]
                step_leads(states, j, before, after) ==> exists|o: &mut Obs, keys: &[Pubkey]|
                    {
                        &&& *o == before
                        &&& *final(o) == after
                        &&& keys@ == events[j].1
                        &&& #[trigger] call_ensures(
                            Obs::on_group_evicted,
                            (o, events[j].0, keys),
                            (),
                        )
                    },
        decreases evicted@.len() - i,
    {
        let owner = evicted[i].owner;
        let keys = evicted[i].pubkeys.as_slice();
        let ghost known = states;
        observer.on_group_evicted(owner, keys);
        proof {
            states = states.push(*observer);
            assert(events[i as int] == (owner, keys@));
            assert forall|j: int, before: Obs, after: Obs| #[trigger]
                step_leads(states, j, before, after) implies exists|
                o: &mut Obs,
                keys: &[Pubkey],
            |
                {
                    &&& *o == before
                    &&& *final(o) == after
                    &&& keys@ == events[j].1
                    &&& #[trigger] call_ensures(
                        Obs::on_group_evicted,
                        (o, events[j].0, keys),
                        (),
                    )
                } by {
                if j < i {
                    assert(step_leads(known, j, before, after));
                } else {
                    assert(before == known.last());
                    assert(after == *observer);
                }
            }
        }
        i = i + 1;
    }
    assert(leads(states, *old(observer), *final(observer), events_of(evicted@).len()));
}

/// A wallet owner other than `but`.
pub open spec fn counts_for_wallet(owner: OwnerKey, but: Option<OwnerKey>) -> bool {
    owner.consumer == ConsumerId::Wallet && but != Some(owner)
}

proof fn lemma_advanced_dom(stamps: Map<OwnerKey, u64>, counter: u64)
    requires
        counter_advanced(stamps, counter) is Some,
    ensures
        (counter_advanced(stamps, counter)->0).0.dom() =~= stamps.dom(),
{
}

/// How many addresses only this group holds.
pub open spec fn marginal(view: DesiredView, owner: OwnerKey) -> nat {
    view.groups[owner].to_set().filter(
        |pk: Pubkey| owner_index::owners_of(view.groups, pk).len() == 1,
    ).len()
}

/// A group that may leave to bring the set within its cap: not a wallet group, and it holds
/// addresses of its own.
pub open spec fn may_shrink(view: DesiredView, owner: OwnerKey) -> bool {
    view.groups.dom().contains(owner) && owner.consumer != ConsumerId::Wallet && marginal(
        view,
        owner,
    ) > 0
}

/// Whether this group alone brings the set within its cap.
pub open spec fn suffices(view: DesiredView, owner: OwnerKey) -> bool {
    marginal(view, owner) >= view.len() - view.cap
}

/// Shrink order: groups that suffice alone, then fewer addresses lost, then eviction order.
pub open spec fn shrinks_before(view: DesiredView, a: OwnerKey, b: OwnerKey) -> bool {
    if suffices(view, a) != suffices(view, b) {
        suffices(view, a)
    } else if marginal(view, a) != marginal(view, b) {
        marginal(view, a) < marginal(view, b)
    } else {
        victim_key(view, a).rank() < victim_key(view, b).rank()
    }
}

/// The first group in shrink order.
pub open spec fn is_shrink_victim(view: DesiredView, owner: OwnerKey) -> bool {
    may_shrink(view, owner) && forall|o: OwnerKey| #[trigger]
        may_shrink(view, o) ==> !shrinks_before(view, o, owner)
}

proof fn lemma_least_shrink(view: DesiredView, owners: Set<OwnerKey>) -> (least: OwnerKey)
    requires
        owners.finite(),
        owners.len() > 0,
    ensures
        owners.contains(least),
        forall|o: OwnerKey| #[trigger] owners.contains(o) ==> !shrinks_before(view, o, least),
    decreases owners.len(),
{
    let o = owners.choose();
    let rest = owners.remove(o);
    if rest.len() == 0 {
        assert forall|x: OwnerKey| #[trigger] owners.contains(x) implies x == o by {
            if x != o {
                assert(rest.contains(x));
            }
        }
        o
    } else {
        let m = lemma_least_shrink(view, rest);
        let least = if shrinks_before(view, o, m) {
            o
        } else {
            m
        };
        assert forall|x: OwnerKey| #[trigger] owners.contains(x) implies !shrinks_before(
            view,
            x,
            least,
        ) by {
            if x != o {
                assert(rest.contains(x));
            }
        }
        least
    }
}

pub proof fn lemma_shrink_victim(view: DesiredView)
    requires
        view.groups.dom().finite(),
        exists|o: OwnerKey| may_shrink(view, o),
    ensures
        exists|o: OwnerKey| is_shrink_victim(view, o),
{
    let able = view.groups.dom().filter(|o: OwnerKey| may_shrink(view, o));
    let w = choose|o: OwnerKey| may_shrink(view, o);
    assert(able.contains(w));
    let least = lemma_least_shrink(view, able);
    assert forall|o: OwnerKey| #[trigger] may_shrink(view, o) implies !shrinks_before(
        view,
        o,
        least,
    ) by {
        assert(able.contains(o));
    }
    assert(is_shrink_victim(view, least));
}

pub proof fn lemma_shrink_victim_unique(view: DesiredView, a: OwnerKey, b: OwnerKey)
    requires
        is_shrink_victim(view, a),
        is_shrink_victim(view, b),
    ensures
        a == b,
{
    assert(may_shrink(view, a));
    assert(may_shrink(view, b));
    AgedKey::<OwnerKey>::rank_injective(victim_key(view, a), victim_key(view, b));
}

/// Groups leave in shrink order until the set is within its cap or none may leave: whether it is
/// within the cap, which groups left, and what remains.
pub open spec fn shrink_run(view: DesiredView, gone: Seq<OwnerKey>) -> (
    bool,
    Seq<OwnerKey>,
    DesiredView,
)
    decreases view.groups.dom().len(),
    when view.groups.dom().finite()
    via shrink_run_decreases
{
    if view.len() <= view.cap {
        (true, gone, view)
    } else if exists|o: OwnerKey| may_shrink(view, o) {
        let victim = choose|o: OwnerKey| is_shrink_victim(view, o);
        shrink_run(view.without(victim), gone.push(victim))
    } else {
        (false, gone, view)
    }
}

#[via_fn]
proof fn shrink_run_decreases(view: DesiredView, gone: Seq<OwnerKey>) {
    if exists|o: OwnerKey| may_shrink(view, o) {
        lemma_shrink_victim(view);
        let victim = choose|o: OwnerKey| is_shrink_victim(view, o);
        assert(view.without(victim).groups.dom() =~= view.groups.dom().remove(victim));
    }
}

/// The groups that are looked at to find the next to leave.
pub open spec fn shrinkable(view: DesiredView) -> Set<OwnerKey> {
    view.groups.dom().filter(|o: OwnerKey| o.consumer != ConsumerId::Wallet)
}

/// What [`shrink_run`] costs: every group that is no wallet group is a pop, each time.
pub open spec fn shrink_run_cost(view: DesiredView) -> PlanningCost
    decreases view.groups.dom().len(),
    when view.groups.dom().finite()
    via shrink_run_cost_decreases
{
    let one = PlanningCost { visits: 0, pops: shrinkable(view).len() };
    if view.len() <= view.cap {
        PlanningCost::nothing()
    } else if exists|o: OwnerKey| may_shrink(view, o) {
        let victim = choose|o: OwnerKey| is_shrink_victim(view, o);
        one.and(shrink_run_cost(view.without(victim)))
    } else {
        one
    }
}

#[via_fn]
proof fn shrink_run_cost_decreases(view: DesiredView) {
    if exists|o: OwnerKey| may_shrink(view, o) {
        lemma_shrink_victim(view);
        let victim = choose|o: OwnerKey| is_shrink_victim(view, o);
        assert(view.without(victim).groups.dom() =~= view.groups.dom().remove(victim));
    }
}

/// What bringing the set within its cap costs.
pub open spec fn converge_cost(view: DesiredView) -> PlanningCost {
    if view.wallet_overflow() {
        PlanningCost::nothing()
    } else {
        shrink_run_cost(view)
    }
}

/// The state with the cap set, before anything leaves.
pub open spec fn recapped(before: DesiredView, cap: usize) -> DesiredView {
    DesiredView {
        cap: if cap < 1 {
            1
        } else {
            cap
        },
        ..before
    }
}

/// What bringing the set within its cap does.
pub open spec fn converge_outcome(
    before: DesiredView,
    result: CapConvergeResult,
    after: DesiredView,
) -> bool {
    let (within, gone, left) = shrink_run(before, Seq::empty());
    if before.wallet_overflow() {
        result is ProtectedOverflow && after == before
    } else if within {
        &&& result matches CapConvergeResult::Converged { evicted_owners }
        &&& ordered::lists(evicted_owners@, gone.to_set())
        &&& after == left
    } else {
        result is Unconverged && after == left
    }
}

/// What setting the cap does.
pub open spec fn set_cap_outcome(
    before: DesiredView,
    cap: usize,
    result: CapConvergeResult,
    after: DesiredView,
) -> bool {
    let wanted = recapped(before, cap);
    let (within, gone, left) = shrink_run(wanted, Seq::empty());
    if wanted.wallet_overflow() {
        result is ProtectedOverflow && after == wanted
    } else if within {
        &&& result matches CapConvergeResult::Converged { evicted_owners }
        &&& ordered::lists(evicted_owners@, gone.to_set())
        &&& after == left
    } else {
        result is Unconverged && after == before
    }
}

/// The state after the group of `key` is removed; a set over its cap shrinks on.
pub open spec fn removed(before: DesiredView, key: OwnerKey) -> DesiredView {
    let rest = before.without(key);
    if !before.groups.dom().contains(key) {
        before
    } else if rest.len() > rest.cap && !rest.wallet_overflow() {
        shrink_run(rest, Seq::empty()).2
    } else {
        rest
    }
}

/// What removing the group of `key` costs.
pub open spec fn remove_cost(before: DesiredView, key: OwnerKey) -> PlanningCost {
    if before.groups.dom().contains(key) {
        converge_cost(before.without(key))
    } else {
        PlanningCost::nothing()
    }
}

/// What goes when the set is brought within its cap: nothing where wallet groups alone are over
/// it.
pub open spec fn converge_events(view: DesiredView) -> Seq<(OwnerKey, Seq<Pubkey>)> {
    if view.wallet_overflow() {
        Seq::empty()
    } else {
        shrink_events(view, shrink_run(view, Seq::empty()).1)
    }
}

/// Groups of evictions in the order in which they happen.
pub open spec fn shrink_events(before: DesiredView, gone: Seq<OwnerKey>) -> Seq<
    (OwnerKey, Seq<Pubkey>),
> {
    gone.map_values(|o: OwnerKey| (o, before.groups[o]))
}

proof fn lemma_all_shrinkable(view: DesiredView, nobody: OwnerKey, keys: Seq<AgedKey<OwnerKey>>)
    requires
        nobody.consumer == ConsumerId::Wallet,
        ordered::lists(keys, candidate_set(view, nobody)),
        keys.map_values(|k: AgedKey<OwnerKey>| k.owner).no_duplicates(),
    ensures
        keys.len() == shrinkable(view).len(),
{
    let owners = keys.map_values(|k: AgedKey<OwnerKey>| k.owner);
    assert forall|o: OwnerKey| owners.to_set().contains(o) == shrinkable(view).contains(o) by {
        if owners.contains(o) {
            let i = choose|i: int| 0 <= i < owners.len() && owners[i] == o;
            assert(keys.to_set().contains(keys[i]));
        }
        if shrinkable(view).contains(o) {
            let k = victim_key(view, o);
            assert(candidate_set(view, nobody).contains(k));
            assert(keys.to_set().contains(k));
            let i = choose|i: int| 0 <= i < keys.len() && keys[i] == k;
            assert(owners[i] == o);
        }
    }
    assert(owners.to_set() =~= shrinkable(view));
    owners.unique_seq_to_set();
}

impl AdmissionDesiredExplicitSet {
    /// How many addresses only this group holds.
    fn marginal_free_for_shrink(&self, victim: &OwnerKey) -> (n: usize)
        requires
            self.wf(),
            self@.groups.dom().contains(*victim),
        ensures
            n == marginal(self@, *victim),
    {
        let ghost groups = self@.groups;
        let ghost alone = groups[*victim].to_set().filter(
            |pk: Pubkey| owner_index::owners_of(groups, pk).len() == 1,
        );
        match self.index.group(victim) {
            None => 0,
            Some(keys) => {
                let mut own: Vec<Pubkey> = Vec::new();
                let mut i: usize = 0;
                while i < keys.len()
                    invariant
                        self.wf(),
                        groups == self@.groups,
                        keys@ == groups[*victim],
                        alone == groups[*victim].to_set().filter(
                            |pk: Pubkey| owner_index::owners_of(groups, pk).len() == 1,
                        ),
                        0 <= i <= keys@.len(),
                        ordered::lists(own@, keys@.take(i as int).to_set().intersect(alone)),
                    decreases keys@.len() - i,
                {
                    proof {
                        ordered::lemma_take_step(keys@, i as int);
                        assert(keys@.to_set().contains(keys@[i as int]));
                    }
                    if self.index.refcount(&keys[i]) == 1 {
                        let _ = ordered::add_key(&mut own, keys[i]);
                    }
                    i = i + 1;
                }
                proof {
                    assert(keys@.take(i as int) =~= keys@);
                    assert(keys@.to_set().intersect(alone) =~= alone);
                    ordered::lemma_sorted_no_duplicates(own@);
                }
                own.len()
            },
        }
    }

    /// The first group in shrink order.
    #[verifier::rlimit(40)]
    fn pick_shrink_victim_marginal(&self, stats: &mut PlanningStats) -> (r: Option<OwnerKey>)
        requires
            self.wf(),
            self@.len() > self@.cap,
        ensures
            *final(stats) == old(stats).plus(
                PlanningCost { visits: 0, pops: shrinkable(self@).len() },
            ),
            match r {
                Some(owner) => is_shrink_victim(self@, owner),
                None => forall|o: OwnerKey| !may_shrink(self@, o),
            },
    {
        let ghost view = self@;
        let deficit: usize = self.index.len() - self.cap;
        let nobody = OwnerKey::new(ConsumerId::Wallet, Pubkey::new_from_array([0;32]));
        let keys = self.eviction_candidates(&nobody);
        proof {
            self.lemma_wf();
            lemma_candidates(view, nobody);
            lemma_all_shrinkable(view, nobody, keys@);
        }
        let mut best: Option<(OwnerKey, usize)> = None;
        let ghost mut place: int = 0;
        let mut i: usize = 0;
        while i < keys.len()
            invariant
                self.wf(),
                view == self@,
                deficit == view.len() - view.cap,
                nobody.consumer == ConsumerId::Wallet,
                ordered::lists(keys@, candidate_set(view, nobody)),
                0 <= i <= keys@.len(),
                *stats == old(stats).plus(PlanningCost { visits: 0, pops: i as nat }),
                match best {
                    Some((owner, count)) => {
                        &&& 0 <= place < i
                        &&& keys@[place].owner == owner
                        &&& may_shrink(view, owner)
                        &&& count == marginal(view, owner)
                        &&& forall|j: int|
                            0 <= j < i && may_shrink(view, (#[trigger] keys@[j]).owner)
                                ==> !shrinks_before(view, keys@[j].owner, owner)
                    },
                    None => forall|j: int|
                        0 <= j < i ==> !may_shrink(view, (#[trigger] keys@[j]).owner),
                },
            decreases keys@.len() - i,
        {
            let owner: OwnerKey = keys[i].owner;
            proof {
                assert(keys@.to_set().contains(keys@[i as int]));
                assert(keys@[i as int] == victim_key(view, owner));
            }
            stats.record_candidate_pop();
            let count: usize = self.marginal_free_for_shrink(&owner);
            if count != 0 {
                let better: bool = match best {
                    None => true,
                    Some((_, best_count)) => {
                        let fits: bool = count >= deficit;
                        let best_fits: bool = best_count >= deficit;
                        if fits != best_fits {
                            fits
                        } else {
                            count < best_count
                        }
                    },
                };
                proof {
                    assert(may_shrink(view, owner));
                    if best is Some {
                        assert(keys@[place].rank() < keys@[i as int].rank());
                        assert(keys@.to_set().contains(keys@[place]));
                        assert(keys@[place] == victim_key(view, keys@[place].owner));
                    }
                }
                if better {
                    proof {
                        place = i as int;
                    }
                    best = Some((owner, count));
                }
            }
            i = i + 1;
        }
        proof {
            assert forall|o: OwnerKey| #[trigger] may_shrink(view, o) implies exists|j: int|
                0 <= j < keys@.len() && (#[trigger] keys@[j]).owner == o by {
                let k = victim_key(view, o);
                assert(candidate_set(view, nobody).contains(k));
                assert(keys@.to_set().contains(k));
                let j = choose|j: int| 0 <= j < keys@.len() && keys@[j] == k;
                assert(keys@[j].owner == o);
            }
        }
        match best {
            Some((owner, _)) => Some(owner),
            None => None,
        }
    }

    /// Whether wallet groups alone are over the cap.
    fn wallet_only_overflow(&self) -> (r: bool)
        requires
            self.wf(),
        ensures
            r == self@.wallet_overflow(),
    {
        let keys = self.wallet_keys(None);
        proof {
            ordered::lemma_sorted_no_duplicates(keys@);
        }
        keys.len() > self.cap
    }

    /// Brings the set within its cap; returns, besides the result, the evicted groups in order.
    #[verifier::rlimit(40)]
    pub fn converge_to_cap_recorded(&mut self) -> (r: (CapConvergeResult, Vec<EvictedGroup>))
        requires
            old(self).wf(),
        ensures
            final(self).wf(),
            converge_outcome(old(self)@, r.0, final(self)@),
            final(self).stats() == old(self).stats().plus(converge_cost(old(self)@)),
            events_of(r.1@) =~= converge_events(old(self)@),
    {
        let ghost before = self@;
        let mut evicted: Vec<EvictedGroup> = Vec::new();
        let mut owners: Vec<OwnerKey> = Vec::new();
        proof {
            self.lemma_wf();
            assert(events_of(evicted@) =~= Seq::empty());
            assert(owners@ =~= Seq::empty());
        }
        if self.wallet_only_overflow() {
            return (CapConvergeResult::ProtectedOverflow, evicted);
        }
        let ghost goal = shrink_run(before, Seq::empty());
        let ghost total = shrink_run_cost(before);
        let ghost mut spent = PlanningCost::nothing();
        let mut stats = self.planning_stats;
        while self.index.len() > self.cap
            invariant
                self.wf(),
                before == old(self)@,
                before.groups.dom().finite(),
                !before.wallet_overflow(),
                goal == shrink_run(before, Seq::empty()),
                goal == shrink_run(self@, owners@),
                total == shrink_run_cost(before),
                total == spent.and(shrink_run_cost(self@)),
                stats == old(self).stats().plus(spent),
                self@.groups.dom().subset_of(before.groups.dom()),
                forall|o: OwnerKey| #[trigger]
                    self@.groups.dom().contains(o) ==> self@.groups[o] == before.groups[o],
                events_of(evicted@) =~= shrink_events(before, owners@),
            decreases self@.groups.dom().len(),
        {
            proof {
                self.lemma_wf();
            }
            let pick = self.pick_shrink_victim_marginal(&mut stats);
            proof {
                spent =
                spent.and(PlanningCost { visits: 0, pops: shrinkable(self@).len() });
            }
            match pick {
                None => {
                    self.planning_stats = stats;
                    return (CapConvergeResult::Unconverged, evicted);
                },
                Some(victim) => {
                    proof {
                        let chosen = choose|o: OwnerKey| is_shrink_victim(self@, o);
                        lemma_shrink_victim_unique(self@, victim, chosen);
                        assert(may_shrink(self@, victim));
                        assert(self@.groups.dom().contains(victim));
                        assert(self@.without(victim).groups.dom() =~= self@.groups.dom().remove(
                            victim,
                        ));
                    }
                    let ghost now = self@;
                    let ghost events = events_of(evicted@);
                    let ghost named = owners@;
                    let pubkeys: Vec<Pubkey> = match self.index.take(&victim) {
                        Some(keys) => keys,
                        None => Vec::new(),
                    };
                    let _ = self.stamps.remove(&victim);
                    evicted.push(EvictedGroup { owner: victim, pubkeys });
                    owners.push(victim);
                    proof {
                        assert(self@ =~= now.without(victim));
                        assert(events_of(evicted@) =~= events.push(
                            (victim, before.groups[victim]),
                        ));
                        assert(shrink_events(before, owners@) =~= shrink_events(before, named).push(
                            (victim, before.groups[victim]),
                        ));
                    }
                },
            }
        }
        self.planning_stats = stats;
        proof {
            self.lemma_wf();
        }
        let evicted_owners = ordered::normalize(owners.as_slice());
        (CapConvergeResult::Converged { evicted_owners }, evicted)
    }

    /// Brings the set within its cap.
    pub fn converge_to_cap(&mut self) -> (r: CapConvergeResult)
        requires
            old(self).wf(),
        ensures
            final(self).wf(),
            converge_outcome(old(self)@, r, final(self)@),
            final(self).stats() == old(self).stats().plus(converge_cost(old(self)@)),
    {
        let (result, _) = self.converge_to_cap_recorded();
        result
    }

    /// Brings the set within its cap and tells the observer of every evicted group, in the order
    /// they went.
    pub fn converge_to_cap_observed<Obs: AdmissionObserver>(&mut self, observer: &mut Obs) -> (r:
        CapConvergeResult)
        requires
            old(self).wf(),
        ensures
            final(self).wf(),
            converge_outcome(old(self)@, r, final(self)@),
            final(self).stats() == old(self).stats().plus(converge_cost(old(self)@)),
            ({
                let events = converge_events(old(self)@);
                exists|states: Seq<Obs>|
                    {
                        &&& #[trigger] leads(
                            states,
                            *old(observer),
                            *final(observer),
                            events.len(),
                        )
                        &&& forall|i: int, before: Obs, after: Obs| #[trigger]
                            step_leads(states, i, before, after) ==> exists|
                                o: &mut Obs,
                                keys: &[Pubkey],
                            |
                                {
                                    &&& *o == before
                                    &&& *final(o) == after
                                    &&& keys@ == events[i].1
                                    &&& #[trigger] call_ensures(
                                        Obs::on_group_evicted,
                                        (o, events[i].0, keys),
                                        (),
                                    )
                                }
                    }
            }),
    {
        let (result, evicted) = self.converge_to_cap_recorded();
        notify(evicted.as_slice(), observer);
        result
    }

    /// A copy with the same contents.
    pub fn duplicate(&self) -> (r: Self)
        requires
            self.wf(),
        ensures
            r.wf(),
            r@ == self@,
            r.stats() == self.stats(),
    {
        AdmissionDesiredExplicitSet {
            cap: self.cap,
            index: self.index.duplicate(),
            stamps: self.stamps.duplicate(),
            lru_counter: self.lru_counter,
            planning_stats: self.planning_stats,
        }
    }

    /// Sets the cap and brings the set within it; when that fails, everything stays as it was.
    pub fn set_max_explicit_pubkeys(&mut self, cap: usize) -> (r: CapConvergeResult)
        requires
            old(self).wf(),
        ensures
            final(self).wf(),
            set_cap_outcome(old(self)@, cap, r, final(self)@),
            final(self).stats() == old(self).stats().plus(
                converge_cost(recapped(old(self)@, cap)),
            ),
    {
        let snapshot = self.duplicate();
        self.cap = if cap < 1 {
            1
        } else {
            cap
        };
        let result = self.converge_to_cap();
        if let CapConvergeResult::Unconverged = &result {
            let stats = self.planning_stats;
            *self = snapshot;
            self.planning_stats = stats;
        }
        result
    }

    /// Removes a group; says whether it was there.
    pub fn remove_group(&mut self, consumer: ConsumerId, owner: Pubkey) -> (r: bool)
        requires
            old(self).wf(),
        ensures
            final(self).wf(),
            r == old(self)@.groups.dom().contains(OwnerKey { consumer, owner }),
            final(self)@ == removed(old(self)@, OwnerKey { consumer, owner }),
            final(self).stats() == old(self).stats().plus(
                remove_cost(old(self)@, OwnerKey { consumer, owner }),
            ),
    {
        let key = OwnerKey::new(consumer, owner);
        if !self.index.contains_owner(&key) {
            return false;
        }
        let ghost before = self@;
        let _ = self.index.take(&key);
        let _ = self.stamps.remove(&key);
        proof {
            assert(self@ =~= before.without(key));
        }
        if self.index.len() > self.cap && !self.wallet_only_overflow() {
            let _ = self.converge_to_cap();
        }
        true
    }
}

/// Whether the admission of a group takes it in.
pub open spec fn takes_in(before: DesiredView, key: OwnerKey, keys: Seq<Pubkey>) -> bool {
    admit_kind(before, key, keys) is Touch || admit_kind(before, key, keys) is Insert
}

/// Groups admitted one by one in the given order: who was taken in, who was refused, and the
/// state after it.
pub open spec fn restore_run(
    view: DesiredView,
    groups: Seq<OwnerGroupSnapshot>,
    order: Seq<usize>,
    i: int,
) -> (Seq<OwnerKey>, Seq<OwnerKey>, DesiredView)
    decreases i,
{
    if i <= 0 {
        (Seq::empty(), Seq::empty(), view)
    } else {
        let (taken, refused, before) = restore_run(view, groups, order, i - 1);
        let group = groups[order[i - 1] as int];
        let after = admitted(before, group.owner, group.pubkeys@);
        if takes_in(before, group.owner, group.pubkeys@) {
            (taken.push(group.owner), refused, after)
        } else {
            (taken, refused.push(group.owner), after)
        }
    }
}

/// What admitting groups one by one costs.
pub open spec fn restore_cost(
    view: DesiredView,
    groups: Seq<OwnerGroupSnapshot>,
    order: Seq<usize>,
    i: int,
) -> PlanningCost
    decreases i,
{
    if i <= 0 {
        PlanningCost::nothing()
    } else {
        let group = groups[order[i - 1] as int];
        restore_cost(view, groups, order, i - 1).and(
            admit_cost(restore_run(view, groups, order, i - 1).2, group.owner, group.pubkeys@),
        )
    }
}

/// The places of the groups in owner order.
pub open spec fn group_order(groups: Seq<OwnerGroupSnapshot>) -> Seq<usize> {
    row_order::stable_order(groups.map_values(|g: OwnerGroupSnapshot| g.owner))
}

/// Which groups a restore takes in, and what it leaves behind.
pub open spec fn restored(
    before: DesiredView,
    groups: Seq<OwnerGroupSnapshot>,
    result: RestoreResult,
    after: DesiredView,
) -> bool {
    let order = group_order(groups);
    let (taken, refused, last) = restore_run(before, groups, order, order.len() as int);
    &&& result.admitted@ == taken
    &&& result.rejected@ == refused
    &&& after == last
}

impl AdmissionDesiredExplicitSet {
    /// Admits the groups in owner order.
    pub fn restore_owner_groups(&mut self, groups: &[OwnerGroupSnapshot]) -> (r: RestoreResult)
        requires
            old(self).wf(),
        ensures
            final(self).wf(),
            restored(old(self)@, groups@, r, final(self)@),
            final(self).stats() == old(self).stats().plus(
                restore_cost(
                    old(self)@,
                    groups@,
                    group_order(groups@),
                    group_order(groups@).len() as int,
                ),
            ),
    {
        let ghost names = groups@.map_values(|g: OwnerGroupSnapshot| g.owner);
        let mut owners: Vec<OwnerKey> = Vec::new();
        let mut n: usize = 0;
        while n < groups.len()
            invariant
                0 <= n <= groups@.len(),
                names == groups@.map_values(|g: OwnerGroupSnapshot| g.owner),
                owners@ =~= names.take(n as int),
            decreases groups@.len() - n,
        {
            owners.push(groups[n].owner);
            n = n + 1;
        }
        proof {
            assert(names.take(n as int) =~= names);
        }
        let order = row_order::in_stable_order(owners.as_slice());
        let mut admitted: Vec<OwnerKey> = Vec::new();
        let mut rejected: Vec<OwnerKey> = Vec::new();
        let mut i: usize = 0;
        proof {
            assert(admitted@ =~= Seq::empty());
            assert(rejected@ =~= Seq::empty());
        }
        while i < order.len()
            invariant
                self.wf(),
                order@ == group_order(groups@),
                order@.len() == groups@.len(),
                forall|j: int| 0 <= j < order@.len() ==> #[trigger] order@[j] < groups@.len(),
                0 <= i <= order@.len(),
                (admitted@, rejected@, self@) == restore_run(
                    old(self)@,
                    groups@,
                    order@,
                    i as int,
                ),
                self.stats() == old(self).stats().plus(
                    restore_cost(old(self)@, groups@, order@, i as int),
                ),
            decreases order@.len() - i,
        {
            let place: usize = order[i];
            let group = &groups[place];
            match self.try_admit_group(
                group.owner.consumer,
                group.owner.owner,
                group.pubkeys.as_slice(),
            ) {
                AdmissionResult::Inserted { .. } | AdmissionResult::OwnerAddedNoNewPubkey => {
                    admitted.push(group.owner);
                },
                AdmissionResult::RejectedCap | AdmissionResult::RejectedProtected
                | AdmissionResult::RejectedInvalidGroup => {
                    rejected.push(group.owner);
                },
            }
            i = i + 1;
        }
        RestoreResult { admitted, rejected }
    }

    /// Forgets everything and admits the groups in owner order.
    pub fn reconcile_from_owner_groups(&mut self, groups: &[OwnerGroupSnapshot]) -> (r:
        RestoreResult)
        requires
            old(self).wf(),
        ensures
            final(self).wf(),
            restored(cleared(old(self)@.cap), groups@, r, final(self)@),
            final(self).stats() == old(self).stats().plus(
                restore_cost(
                    cleared(old(self)@.cap),
                    groups@,
                    group_order(groups@),
                    group_order(groups@).len() as int,
                ),
            ),
    {
        self.index.clear();
        self.stamps.clear();
        self.lru_counter = 0;
        proof {
            assert(self@ =~= DesiredView {
                cap: old(self)@.cap,
                groups: Map::empty(),
                stamps: Map::empty(),
                counter: 0,
            });
        }
        self.restore_owner_groups(groups)
    }
}

/// A group that fits is planned without trying a candidate, and only the addresses listed and
/// those that its owner had are visited.
pub proof fn fitting_group_is_planned_cheaply(
    before: DesiredView,
    key: OwnerKey,
    keys: Seq<Pubkey>,
)
    requires
        before.projected(Set::empty(), key, ordered::in_order(keys.to_set())) <= before.cap,
    ensures
        admit_cost(before, key, keys).pops == 0,
        admit_cost(before, key, keys).visits <= keys.to_set().len()
            + if before.groups.dom().contains(key) {
            before.groups[key].to_set().len()
        } else {
            0
        },
{
    let listing = ordered::in_order(keys.to_set());
    let own = owner_index::physical(before.groups.restrict(Set::empty().insert(key)));
    let near = touched(before, Set::empty(), key, listing);
    vstd::seq_lib::seq_to_set_is_finite(keys);
    ordered::lemma_in_order_lists(keys.to_set());
    assert(Seq::<OwnerKey>::empty().to_set() =~= Set::empty());
    assert(listing.to_set() =~= keys.to_set());
    if before.groups.dom().contains(key) {
        vstd::seq_lib::seq_to_set_is_finite(before.groups[key]);
        assert(own.subset_of(before.groups[key].to_set()));
        vstd::set_lib::lemma_len_subset(own, before.groups[key].to_set());
    } else {
        assert(own =~= Set::empty());
    }
    vstd::set_lib::lemma_len_union(keys.to_set(), own);
    assert(near =~= keys.to_set().union(own));
}

/// A plan tries each candidate at most twice.
pub proof fn each_candidate_is_tried_at_most_twice(
    before: DesiredView,
    key: OwnerKey,
    keys: Seq<Pubkey>,
)
    ensures
        admit_cost(before, key, keys).pops <= 2 * candidates(before, key).len(),
{
    let listing = ordered::in_order(keys.to_set());
    let able = candidates(before, key);
    lemma_pass_pops(before, key, listing, able, 0, Seq::empty());
    lemma_pass_pops(
        before,
        key,
        listing,
        able,
        0,
        pass(before, key, listing, able, 0, Seq::empty()),
    );
}

proof fn lemma_pass_pops(
    view: DesiredView,
    incoming: OwnerKey,
    listing: Seq<Pubkey>,
    keys: Seq<AgedKey<OwnerKey>>,
    i: int,
    gone: Seq<OwnerKey>,
)
    requires
        0 <= i <= keys.len(),
    ensures
        pass_cost(view, incoming, listing, keys, i, gone).pops <= keys.len() - i,
    decreases keys.len() - i,
{
    if i < keys.len() {
        lemma_pass_pops(view, incoming, listing, keys, i + 1, gone);
        lemma_pass_pops(view, incoming, listing, keys, i + 1, gone.push(keys[i].owner));
    }
}

/// An admitted group is in the set as given, and the set stays within its cap.
pub proof fn admitted_group_fits(before: DesiredView, key: OwnerKey, keys: Seq<Pubkey>)
    requires
        admit_kind(before, key, keys) is Insert,
    ensures
        admitted(before, key, keys).groups.dom().contains(key),
        admitted(before, key, keys).groups[key] == ordered::in_order(keys.to_set()),
        admitted(before, key, keys).len() <= before.cap,
{
}

/// A refused group changes nothing.
pub proof fn refusal_changes_nothing(before: DesiredView, key: OwnerKey, keys: Seq<Pubkey>)
    requires
        !takes_in(before, key, keys),
    ensures
        admitted(before, key, keys) == before,
{
}

/// Admission never evicts a wallet group nor one better protected than the newcomer; what stays
/// keeps its addresses.
pub proof fn admission_respects_priority(
    before: DesiredView,
    key: OwnerKey,
    keys: Seq<Pubkey>,
    other: OwnerKey,
)
    requires
        before.groups.dom().finite(),
        before.groups.dom().contains(other),
        other != key,
    ensures
        ({
            let after = admitted(before, key, keys);
            &&& !after.groups.dom().contains(other) ==> other.consumer != ConsumerId::Wallet
                && other.consumer.priority().level() >= key.consumer.priority().level()
            &&& after.groups.dom().contains(other) ==> after.groups[other] == before.groups[other]
        }),
{
    let listing = ordered::in_order(keys.to_set());
    victims_may_go(before, key, listing);
    if planned_victims(before, key, listing).to_set().contains(other) {
        assert(planned_victims(before, key, listing).contains(other));
    }
}

/// Nothing is evicted for a group that fits.
pub proof fn fitting_group_evicts_nothing(before: DesiredView, key: OwnerKey, keys: Seq<Pubkey>)
    requires
        before.projected(Set::empty(), key, ordered::in_order(keys.to_set())) <= before.cap,
    ensures
        planned_victims(before, key, ordered::in_order(keys.to_set())) =~= Seq::empty(),
{
    let listing = ordered::in_order(keys.to_set());
    assert(Seq::<OwnerKey>::empty().to_set() =~= Set::empty());
}

/// Shrinking spares wallet groups, only takes groups out, and ends within the cap or where no
/// group may leave.
pub proof fn shrink_spares_wallet(view: DesiredView, gone: Seq<OwnerKey>)
    requires
        view.groups.dom().finite(),
    ensures
        ({
            let (within, left_out, left) = shrink_run(view, gone);
            &&& left.cap == view.cap
            &&& left.counter == view.counter
            &&& left.groups.dom().subset_of(view.groups.dom())
            &&& forall|o: OwnerKey| #[trigger]
                left.groups.dom().contains(o) ==> left.groups[o] == view.groups[o]
            &&& forall|o: OwnerKey| #[trigger]
                view.groups.dom().contains(o) && o.consumer == ConsumerId::Wallet
                    ==> left.groups.dom().contains(o)
            &&& within ==> left.len() <= left.cap
            &&& !within ==> left.len() > left.cap && forall|o: OwnerKey| !may_shrink(left, o)
        }),
    decreases view.groups.dom().len(),
{
    if view.len() > view.cap && exists|o: OwnerKey| may_shrink(view, o) {
        lemma_shrink_victim(view);
        let victim = choose|o: OwnerKey| is_shrink_victim(view, o);
        let rest = view.without(victim);
        assert(rest.groups.dom() =~= view.groups.dom().remove(victim));
        shrink_spares_wallet(rest, gone.push(victim));
        let left = shrink_run(view, gone).2;
        assert forall|o: OwnerKey| #[trigger]
            view.groups.dom().contains(o) && o.consumer == ConsumerId::Wallet implies
            left.groups.dom().contains(o) by {
            assert(may_shrink(view, victim));
            assert(rest.groups.dom().contains(o));
        }
        assert forall|o: OwnerKey| #[trigger] left.groups.dom().contains(o) implies left.groups[o]
            == view.groups[o] by {
            assert(rest.groups.dom().contains(o));
        }
    }
}

/// Setting the cap either brings the set within it, or fails closed: with wallet groups alone
/// over the cap no group leaves, and where no group may leave nothing changes.
pub proof fn cap_change_converges_or_fails_closed(
    before: DesiredView,
    cap: usize,
    result: CapConvergeResult,
    after: DesiredView,
)
    requires
        before.groups.dom().finite(),
        set_cap_outcome(before, cap, result, after),
    ensures
        match result {
            CapConvergeResult::Converged { evicted_owners } => {
                &&& after.len() <= after.cap
                &&& after.cap == if cap < 1 {
                    1
                } else {
                    cap
                }
            },
            CapConvergeResult::ProtectedOverflow => {
                &&& after.wallet_overflow()
                &&& after.groups == before.groups
                &&& after.stamps == before.stamps
            },
            CapConvergeResult::Unconverged => after == before,
        },
{
    let wanted = DesiredView {
        cap: if cap < 1 {
            1
        } else {
            cap
        },
        ..before
    };
    shrink_spares_wallet(wanted, Seq::empty());
}

/// A set with nothing in it.
pub open spec fn cleared(cap: usize) -> DesiredView {
    DesiredView { cap, groups: Map::empty(), stamps: Map::empty(), counter: 0 }
}

/// The set after the first groups of a snapshot have been restored.
spec fn restored_so_far(
    groups: OwnedGroups,
    owners: Seq<OwnerKey>,
    taken: Seq<OwnerKey>,
    refused: Seq<OwnerKey>,
    view: DesiredView,
    cap: usize,
    i: int,
) -> bool {
    &&& taken == owners.take(i)
    &&& refused.len() == 0
    &&& view.cap == cap
    &&& view.groups == groups.restrict(owners.take(i).to_set())
    &&& view.counter == i
}

proof fn lemma_restore_prefix(
    cap: usize,
    snapshots: Seq<OwnerGroupSnapshot>,
    groups: OwnedGroups,
    i: int,
)
    requires
        ordered::lists(
            snapshots.map_values(|g: OwnerGroupSnapshot| g.owner),
            groups.dom(),
        ),
        forall|k: int|
            0 <= k < snapshots.len() ==> (#[trigger] snapshots[k]).pubkeys@
                == groups[snapshots[k].owner],
        owner_index::groups_ok(groups),
        owner_index::physical(groups).len() <= cap,
        snapshots.len() < LRU_RENORMALIZE_THRESHOLD,
        snapshots.len() <= usize::MAX,
        0 <= i <= snapshots.len(),
    ensures
        ({
            let (taken, refused, view) = restore_run(
                cleared(cap),
                snapshots,
                group_order(snapshots),
                i,
            );
            restored_so_far(
                groups,
                snapshots.map_values(|g: OwnerGroupSnapshot| g.owner),
                taken,
                refused,
                view,
                cap,
                i,
            )
        }),
    decreases i,
{
    let owners = snapshots.map_values(|g: OwnerGroupSnapshot| g.owner);
    let order = group_order(snapshots);
    let start = cleared(cap);
    row_order::lemma_sorted_stable_order(owners);
    if i == 0 {
        assert(owners.take(0) =~= Seq::empty());
        assert(groups.restrict(owners.take(0).to_set()) =~= Map::empty());
    } else {
        lemma_restore_prefix(cap, snapshots, groups, i - 1);
        let (taken, refused, view) = restore_run(start, snapshots, order, i - 1);
        let group = snapshots[i - 1];
        let owner = group.owner;
        let keys = group.pubkeys@;
        assert(order[i - 1] == i - 1);
        assert(owners[i - 1] == owner);
        assert(owners.to_set().contains(owner));
        assert(groups.dom().contains(owner));
        ordered::lemma_in_order(keys, keys.to_set());
        ordered::lemma_take_step(owners, i - 1);
        assert(!owners.take(i - 1).to_set().contains(owner)) by {
            if owners.take(i - 1).contains(owner) {
                let j = choose|j: int| 0 <= j < i - 1 && #[trigger] owners.take(i - 1)[j] == owner;
                assert(owners[j].rank() < owners[i - 1].rank());
            }
        }
        let after = groups.restrict(owners.take(i).to_set());
        assert forall|o: OwnerKey| owners.take(i).to_set().contains(
            o,
        ) implies #[trigger] groups.dom().contains(o) by {
            let j = choose|j: int| 0 <= j < i && #[trigger] owners.take(i)[j] == o;
            assert(owners[j] == o);
            assert(owners.to_set().contains(o));
        }
        assert(view.replaced(Set::empty(), owner, keys) =~= after);
        let all = owner_index::physical(groups);
        owner_index::lemma_physical_finite(groups);
        assert forall|pk: Pubkey| #[trigger]
            owner_index::physical(after).contains(pk) implies all.contains(pk) by {
            let o = choose|o: OwnerKey|
                after.dom().contains(o) && #[trigger] after[o].contains(pk);
            assert(groups.dom().contains(o) && groups[o].contains(pk));
        }
        vstd::set_lib::lemma_len_subset(owner_index::physical(after), all);
        assert(view.projected(Set::empty(), owner, keys) <= cap);
        let none: Seq<OwnerKey> = Seq::empty();
        assert(none.to_set() =~= Set::empty());
        assert(planned_victims(view, owner, keys) == none);
        assert(owners.take(i) =~= owners.take(i - 1).push(owner));
    }
}

/// Restoring the groups of a set that fit the cap into an empty set takes in all of them,
/// refuses none, and brings back just those groups.
pub proof fn restore_brings_back_the_groups(
    cap: usize,
    snapshots: Seq<OwnerGroupSnapshot>,
    groups: OwnedGroups,
)
    requires
        ordered::lists(
            snapshots.map_values(|g: OwnerGroupSnapshot| g.owner),
            groups.dom(),
        ),
        forall|k: int|
            0 <= k < snapshots.len() ==> (#[trigger] snapshots[k]).pubkeys@
                == groups[snapshots[k].owner],
        owner_index::groups_ok(groups),
        owner_index::physical(groups).len() <= cap,
        snapshots.len() < LRU_RENORMALIZE_THRESHOLD,
        snapshots.len() <= usize::MAX,
    ensures
        ({
            let order = group_order(snapshots);
            let (taken, refused, view) = restore_run(
                cleared(cap),
                snapshots,
                order,
                order.len() as int,
            );
            &&& taken == snapshots.map_values(|g: OwnerGroupSnapshot| g.owner)
            &&& refused.len() == 0
            &&& view.groups == groups
        }),
{
    let owners = snapshots.map_values(|g: OwnerGroupSnapshot| g.owner);
    row_order::lemma_sorted_stable_order(owners);
    lemma_restore_prefix(cap, snapshots, groups, snapshots.len() as int);
    assert(owners.take(owners.len() as int) =~= owners);
    assert(groups.restrict(owners.to_set()) =~= groups);
}

/// Each of these lowers the number of addresses there would be, and is taken only while they are
/// too many.
spec fn each_is_needed(
    view: DesiredView,
    incoming: OwnerKey,
    listing: Seq<Pubkey>,
    gone: Seq<OwnerKey>,
) -> bool {
    forall|i: int|
        #![trigger gone.take(i)]
        0 <= i < gone.len() ==> view.projected(gone.take(i).to_set(), incoming, listing) > view.cap
            && view.projected(gone.take(i).push(gone[i]).to_set(), incoming, listing)
            < view.projected(gone.take(i).to_set(), incoming, listing)
}

proof fn lemma_each_is_needed(
    view: DesiredView,
    incoming: OwnerKey,
    listing: Seq<Pubkey>,
    keys: Seq<AgedKey<OwnerKey>>,
    i: int,
    gone: Seq<OwnerKey>,
)
    requires
        each_is_needed(view, incoming, listing, gone),
    ensures
        each_is_needed(view, incoming, listing, pass(view, incoming, listing, keys, i, gone)),
    decreases keys.len() - i,
{
    if 0 <= i < keys.len() && view.projected(gone.to_set(), incoming, listing) > view.cap {
        let next = gone.push(keys[i].owner);
        if !gone.contains(keys[i].owner) && view.projected(next.to_set(), incoming, listing)
            < view.projected(gone.to_set(), incoming, listing) {
            assert forall|j: int|
                #![trigger next.take(j)]
                0 <= j < next.len() implies view.projected(
                next.take(j).to_set(),
                incoming,
                listing,
            ) > view.cap && view.projected(next.take(j).push(next[j]).to_set(), incoming, listing)
                < view.projected(next.take(j).to_set(), incoming, listing) by {
                assert(next.take(j) =~= gone.take(j));
                if j == gone.len() {
                    assert(gone.take(j) =~= gone);
                }
            }
            lemma_each_is_needed(view, incoming, listing, keys, i + 1, next);
        } else {
            lemma_each_is_needed(view, incoming, listing, keys, i + 1, gone);
        }
    }
}

/// Nobody goes needlessly: each planned victim goes while there would still be too many addresses,
/// and its leaving lowers their number.
pub proof fn victims_go_only_while_needed(
    view: DesiredView,
    incoming: OwnerKey,
    listing: Seq<Pubkey>,
    i: int,
)
    requires
        0 <= i < planned_victims(view, incoming, listing).len(),
    ensures
        ({
            let victims = planned_victims(view, incoming, listing);
            let before = owner_index::physical(
                view.groups.remove_keys(victims.take(i).to_set()).insert(incoming, listing),
            );
            let after = owner_index::physical(
                view.groups.remove_keys(victims.take(i + 1).to_set()).insert(incoming, listing),
            );
            &&& before.len() > view.cap
            &&& after.len() < before.len()
        }),
{
    let keys = candidates(view, incoming);
    let first = pass(view, incoming, listing, keys, 0, Seq::empty());
    lemma_each_is_needed(view, incoming, listing, keys, 0, Seq::empty());
    lemma_each_is_needed(view, incoming, listing, keys, 0, first);
    let victims = planned_victims(view, incoming, listing);
    assert(victims.take(i + 1) =~= victims.take(i).push(victims[i]));
}

/// `a` is let go before `b`: it is less protected or, as protected, was touched longer ago or, at
/// the same time, comes first by identity.
pub open spec fn let_go_before(view: DesiredView, a: OwnerKey, b: OwnerKey) -> bool {
    ||| less_protected(a.consumer, b.consumer)
    ||| a.consumer == b.consumer && (view.stamps[a] < view.stamps[b] || (view.stamps[a]
        == view.stamps[b] && a.rank() < b.rank()))
}

/// The tracker is less protected than all others, arbitrage than momentum and the wallet, momentum
/// than the wallet.
pub open spec fn less_protected(a: ConsumerId, b: ConsumerId) -> bool {
    match a {
        ConsumerId::Tracker => !(b is Tracker),
        ConsumerId::Arb => b is Momentum || b is Wallet,
        ConsumerId::Momentum => b is Wallet,
        ConsumerId::Wallet => false,
    }
}

/// A group that may go for a newcomer: not the newcomer's, not the wallet's, and none that is
/// better protected.
pub open spec fn may_make_room(view: DesiredView, owner: OwnerKey, incoming: OwnerKey) -> bool {
    &&& view.groups.dom().contains(owner)
    &&& owner != incoming
    &&& !(owner.consumer is Wallet)
    &&& !less_protected(incoming.consumer, owner.consumer)
}

proof fn lemma_candidate_at(view: DesiredView, incoming: OwnerKey, owner: OwnerKey) -> (at: int)
    requires
        view.groups.dom().finite(),
        may_make_room(view, owner, incoming),
    ensures
        0 <= at < candidates(view, incoming).len(),
        candidates(view, incoming)[at] == victim_key(view, owner),
{
    lemma_candidates(view, incoming);
    let keys = candidates(view, incoming);
    let k = victim_key(view, owner);
    assert(candidate_set(view, incoming).contains(k));
    assert(keys.to_set().contains(k));
    choose|at: int| 0 <= at < keys.len() && keys[at] == k
}

/// Whether the leaving of this group alone lowers the number of addresses there would be.
spec fn helps(
    view: DesiredView,
    incoming: OwnerKey,
    listing: Seq<Pubkey>,
    owner: OwnerKey,
) -> bool {
    view.projected(set![owner], incoming, listing) < view.projected(Set::empty(), incoming, listing)
}

proof fn lemma_pass_extends(
    view: DesiredView,
    incoming: OwnerKey,
    listing: Seq<Pubkey>,
    keys: Seq<AgedKey<OwnerKey>>,
    i: int,
    gone: Seq<OwnerKey>,
)
    ensures
        pass(view, incoming, listing, keys, i, gone).len() >= gone.len(),
        pass(view, incoming, listing, keys, i, gone).take(gone.len() as int) == gone,
    decreases keys.len() - i,
{
    let r = pass(view, incoming, listing, keys, i, gone);
    if 0 <= i < keys.len() && view.projected(gone.to_set(), incoming, listing) > view.cap {
        let next = gone.push(keys[i].owner);
        if !gone.contains(keys[i].owner) && view.projected(next.to_set(), incoming, listing)
            < view.projected(gone.to_set(), incoming, listing) {
            lemma_pass_extends(view, incoming, listing, keys, i + 1, next);
            assert(r.take(gone.len() as int) =~= r.take(next.len() as int).take(gone.len() as int));
            assert(next.take(gone.len() as int) =~= gone);
        } else {
            lemma_pass_extends(view, incoming, listing, keys, i + 1, gone);
        }
    } else {
        assert(r.take(gone.len() as int) =~= gone);
    }
}

proof fn lemma_first_pick(
    view: DesiredView,
    incoming: OwnerKey,
    listing: Seq<Pubkey>,
    keys: Seq<AgedKey<OwnerKey>>,
    i: int,
) -> (at: int)
    requires
        0 <= i <= keys.len(),
        view.projected(Set::empty(), incoming, listing) > view.cap,
    ensures
        ({
            let r = pass(view, incoming, listing, keys, i, Seq::empty());
            &&& i <= at <= keys.len()
            &&& at < keys.len() ==> r.len() > 0 && r[0] == keys[at].owner
            &&& at == keys.len() ==> r.len() == 0
            &&& forall|j: int|
                i <= j < at ==> !helps(view, incoming, listing, (#[trigger] keys[j]).owner)
        }),
    decreases keys.len() - i,
{
    let none = Seq::<OwnerKey>::empty();
    assert(none.to_set() =~= Set::empty());
    if i == keys.len() {
        i
    } else {
        let one = none.push(keys[i].owner);
        assert(one[0] == keys[i].owner);
        assert(one.to_set() =~= set![keys[i].owner]);
        if helps(view, incoming, listing, keys[i].owner) {
            lemma_pass_extends(view, incoming, listing, keys, i + 1, one);
            let r = pass(view, incoming, listing, keys, i + 1, one);
            assert(r.take(1)[0] == keys[i].owner);
            i
        } else {
            lemma_first_pick(view, incoming, listing, keys, i + 1)
        }
    }
}

/// Of the groups that may go and whose leaving lowers the number of addresses, the first to go is
/// the least protected and, of those, the one touched longest ago.
pub proof fn first_victim_is_the_oldest_that_helps(
    view: DesiredView,
    incoming: OwnerKey,
    listing: Seq<Pubkey>,
    other: OwnerKey,
)
    requires
        view.groups.dom().finite(),
        owner_index::physical(view.groups.insert(incoming, listing)).len() > view.cap,
        may_make_room(view, other, incoming),
        owner_index::physical(view.groups.remove(other).insert(incoming, listing)).len()
            < owner_index::physical(view.groups.insert(incoming, listing)).len(),
    ensures
        planned_victims(view, incoming, listing).len() > 0,
        may_make_room(view, planned_victims(view, incoming, listing)[0], incoming),
        !let_go_before(view, other, planned_victims(view, incoming, listing)[0]),
{
    let keys = candidates(view, incoming);
    assert(view.groups.remove_keys(Set::empty()) =~= view.groups);
    assert(view.groups.remove_keys(set![other]) =~= view.groups.remove(other));
    assert(helps(view, incoming, listing, other));
    let at = lemma_candidate_at(view, incoming, other);
    let m = lemma_first_pick(view, incoming, listing, keys, 0);
    assert(m <= at) by {
        if at < m {
            assert(!helps(view, incoming, listing, keys[at].owner));
        }
    }
    let first = pass(view, incoming, listing, keys, 0, Seq::empty());
    lemma_pass_extends(view, incoming, listing, keys, 0, first);
    let victims = planned_victims(view, incoming, listing);
    assert(victims.take(first.len() as int)[0] == victims[0]);
    assert(victims[0] == keys[m].owner);
    victims_may_go(view, incoming, listing);
    assert(victims.contains(victims[0]));
    lemma_candidates(view, incoming);
    assert(keys.to_set().contains(keys[m]));
    assert(keys[m] == victim_key(view, keys[m].owner));
    if m < at {
        assert(keys[m].rank() < keys[at].rank());
    }
    crate::aged_key::aged_order(victim_key(view, other), keys[m]);
}

proof fn lemma_more_gone(
    view: DesiredView,
    incoming: OwnerKey,
    listing: Seq<Pubkey>,
    fewer: Set<OwnerKey>,
    more: Set<OwnerKey>,
)
    requires
        view.groups.dom().finite(),
        fewer.subset_of(more),
    ensures
        view.projected(more, incoming, listing) <= view.projected(fewer, incoming, listing),
{
    let a = view.replaced(more, incoming, listing);
    let b = view.replaced(fewer, incoming, listing);
    assert(b.dom() =~= view.groups.dom().difference(fewer).insert(incoming));
    owner_index::lemma_physical_finite(b);
    assert forall|pk: Pubkey| owner_index::physical(a).contains(pk) implies owner_index::physical(
        b,
    ).contains(pk) by {
        lemma_replaced_physical(view, more, incoming, listing, pk);
        lemma_replaced_physical(view, fewer, incoming, listing, pk);
    }
    vstd::set_lib::lemma_len_subset(owner_index::physical(a), owner_index::physical(b));
}

proof fn lemma_pass_makes_room(
    view: DesiredView,
    incoming: OwnerKey,
    listing: Seq<Pubkey>,
    keys: Seq<AgedKey<OwnerKey>>,
    i: int,
    gone: Seq<OwnerKey>,
    at: int,
)
    requires
        view.groups.dom().finite(),
        0 <= i <= at < keys.len(),
        view.projected(set![keys[at].owner], incoming, listing) <= view.cap,
    ensures
        view.projected(
            pass(view, incoming, listing, keys, i, gone).to_set(),
            incoming,
            listing,
        ) <= view.cap,
    decreases keys.len() - i,
{
    if view.projected(gone.to_set(), incoming, listing) > view.cap {
        let owner = keys[i].owner;
        let next = gone.push(owner);
        if i == at {
            if gone.contains(owner) {
                assert(gone.to_set().contains(owner));
                lemma_more_gone(view, incoming, listing, set![owner], gone.to_set());
            }
            assert(next[gone.len() as int] == owner);
            assert(next.to_set().contains(owner));
            lemma_more_gone(view, incoming, listing, set![owner], next.to_set());
        } else if !gone.contains(owner) && view.projected(next.to_set(), incoming, listing)
            < view.projected(gone.to_set(), incoming, listing) {
            lemma_pass_makes_room(view, incoming, listing, keys, i + 1, next, at);
        } else {
            lemma_pass_makes_room(view, incoming, listing, keys, i + 1, gone, at);
        }
    }
}

/// A group is admitted wherever the leaving of one group that may go makes room for it: it then
/// stands in the set with its addresses, and was touched last.
pub proof fn group_is_admitted_where_one_can_make_room(
    before: DesiredView,
    key: OwnerKey,
    keys: Seq<Pubkey>,
    other: OwnerKey,
)
    requires
        before.groups.dom().finite(),
        before.counter < LRU_RENORMALIZE_THRESHOLD,
        keys.len() > 0,
        may_make_room(before, other, key),
        owner_index::physical(
            before.groups.remove(other).insert(key, ordered::in_order(keys.to_set())),
        ).len() <= before.cap,
    ensures
        ({
            let after = admitted(before, key, keys);
            &&& after.groups.dom().contains(key)
            &&& after.groups[key] == ordered::in_order(keys.to_set())
            &&& after.stamps[key] == before.counter + 1
            &&& after.counter == before.counter + 1
        }),
{
    let listing = ordered::in_order(keys.to_set());
    assert(before.groups.remove_keys(set![other]) =~= before.groups.remove(other));
    let all = candidates(before, key);
    let at = lemma_candidate_at(before, key, other);
    lemma_pass_makes_room(before, key, listing, all, 0, Seq::empty(), at);
    let first = pass(before, key, listing, all, 0, Seq::empty());
    lemma_pass_makes_room(before, key, listing, all, 0, first, at);
    vstd::seq_lib::seq_to_set_is_finite(keys);
    ordered::lemma_in_order_lists(keys.to_set());
    let wallet = before.wallet_addresses(Some(key)).union(keys.to_set());
    let left = before.replaced(set![other], key, listing);
    assert(left.dom() =~= before.groups.dom().difference(set![other]).insert(key));
    owner_index::lemma_physical_finite(left);
    assert forall|pk: Pubkey| wallet.contains(pk) implies owner_index::physical(left).contains(
        pk,
    ) by {
        lemma_replaced_physical(before, set![other], key, listing, pk);
        if keys.to_set().contains(pk) {
            assert(listing.to_set().contains(pk));
        } else {
            let own = before.groups.restrict(
                before.groups.dom().filter(
                    |o: OwnerKey| o.consumer == ConsumerId::Wallet && Some(key) != Some(o),
                ),
            );
            let o = choose|o: OwnerKey| own.dom().contains(o) && #[trigger] own[o].contains(pk);
            assert(owner_index::owners_of(before.groups, pk).contains(o));
        }
    }
    vstd::set_lib::lemma_len_subset(wallet, owner_index::physical(left));
}

/// Which group leaves first to bring the set within a smaller cap: none of the wallet's, and one
/// that holds addresses alone. One that suffices by itself leaves before one that does not; of
/// two alike in this, the one that fewer addresses are lost with; of two alike in both, the less
/// protected, and then the one touched longest ago.
pub proof fn shrinking_loses_as_little_as_it_can(view: DesiredView, victim: OwnerKey, other: OwnerKey)
    requires
        is_shrink_victim(view, victim),
        view.groups.dom().contains(other),
        !(other.consumer is Wallet),
        marginal(view, other) > 0,
    ensures
        view.groups.dom().contains(victim),
        !(victim.consumer is Wallet),
        marginal(view, victim) > 0,
        ({
            let over = owner_index::physical(view.groups).len() - view.cap;
            let lost = marginal(view, victim);
            let instead = marginal(view, other);
            &&& instead >= over ==> lost >= over
            &&& (lost >= over) == (instead >= over) ==> lost <= instead
            &&& lost == instead ==> !let_go_before(view, other, victim)
        }),
{
    assert(may_shrink(view, other));
    crate::aged_key::aged_order(victim_key(view, other), victim_key(view, victim));
}

} // verus!
