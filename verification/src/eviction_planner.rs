//! Planning snapshots and victim selection.
//!
//! A snapshot is a validated read model of the owner groups with one touch stamp per owner.
//! Tier feasibility says how far eviction has to reach to make room for an incoming group, and
//! victim selection names the groups to let go. Nothing here changes any state.

use crate::eviction_model;
use crate::eviction_model::{EvictionKey, Groups, SelectionWork, Stamps};
pub use crate::eviction_model::EvictionTier;
use crate::explicit_ownership::{ExplicitConsumer, ExplicitOwner, ExplicitOwnership};
use crate::ordered;
use crate::ordered::{OrderedMap, Ranked};
use crate::owner_index;
use crate::owner_index::OwnerIndex;
use crate::pubkey::Pubkey;
use vstd::prelude::*;

verus! {

/// Touch stamp of one owner.
#[derive(Debug, Clone, Copy, PartialEq, Eq)]
pub struct OwnerLruEntry {
    pub owner: ExplicitOwner,
    pub last_touch: u64,
}

/// One owner group with its touch stamp.
#[derive(Debug, Clone, PartialEq, Eq)]
pub struct OwnerPlanningRecord {
    pub owner: ExplicitOwner,
    pub last_touch: u64,
    pub pubkeys: Vec<Pubkey>,
}

impl OwnerPlanningRecord {
    pub fn consumer(&self) -> (r: ExplicitConsumer)
        ensures
            r == self.owner.consumer,
    {
        self.owner.consumer
    }
}

/// The owners of one tracked address.
#[derive(Debug, Clone, PartialEq, Eq)]
pub struct PubkeyOwnerIndex {
    pub pubkey: Pubkey,
    pub refcount: usize,
    pub owners: Vec<ExplicitOwner>,
}

/// Validated read model for planning.
#[derive(Debug, Clone, PartialEq, Eq)]
pub struct EvictionPlanningSnapshot {
    physical_len: usize,
    physical_pubkeys: Vec<Pubkey>,
    names: Vec<ExplicitOwner>,
    owners: Vec<OwnerPlanningRecord>,
    pubkey_index: Vec<PubkeyOwnerIndex>,
}

/// Why a snapshot could not be built.
#[derive(Debug, Clone, Copy, PartialEq, Eq)]
pub enum SnapshotBuildError {
    MissingLruEntry(ExplicitOwner),
    UnknownLruOwner(ExplicitOwner),
    DuplicateLruOwner(ExplicitOwner),
    PhysicalLenMismatch { derived: usize, canonical: usize },
    PhysicalPubkeysMismatch,
    RefcountMismatch { pubkey: Pubkey, derived: usize, canonical: usize },
}

/// How much work building snapshots took.
#[derive(Debug, Clone, PartialEq, Eq)]
pub struct BuildStats {
    /// Records built, one per owner.
    pub owner_records_built: u64,
    /// Addresses copied into records.
    pub group_key_edges: u64,
    /// Addresses entered into the index.
    pub reverse_index_inserts: u64,
    /// Comparisons with ownership: one of all addresses, and one refcount of each.
    pub validation_reads: u64,
}

impl Default for BuildStats {
    fn default() -> (r: Self)
        ensures
            r == (BuildStats {
                owner_records_built: 0,
                group_key_edges: 0,
                reverse_index_inserts: 0,
                validation_reads: 0,
            }),
    {
        BuildStats {
            owner_records_built: 0,
            group_key_edges: 0,
            reverse_index_inserts: 0,
            validation_reads: 0,
        }
    }
}

/// The addresses of all groups, counted with repetitions.
pub open spec fn all_edges(groups: Groups) -> nat {
    eviction_model::edges(groups, ordered::in_order(groups.dom()), Set::empty())
}

impl BuildStats {
    /// The counters after a snapshot of `groups` has been built.
    pub open spec fn after_build(self, groups: Groups) -> BuildStats {
        BuildStats {
            owner_records_built: eviction_model::saturated(
                self.owner_records_built,
                groups.dom().len() as int,
            ),
            group_key_edges: eviction_model::saturated(
                self.group_key_edges,
                all_edges(groups) as int,
            ),
            reverse_index_inserts: eviction_model::saturated(
                self.reverse_index_inserts,
                all_edges(groups) as int,
            ),
            validation_reads: eviction_model::saturated(
                self.validation_reads,
                1int + owner_index::physical(groups).len(),
            ),
        }
    }
}

/// Protection order: a lower ordinal is better protected.
#[derive(Debug, Clone, Copy, PartialEq, Eq, PartialOrd, Ord, Structural)]
pub struct ConsumerProtectionRank(pub u8);

impl ConsumerProtectionRank {
    pub fn of(consumer: ExplicitConsumer) -> (r: Self)
        ensures
            r.0 == consumer.position(),
    {
        match consumer {
            ExplicitConsumer::Wallet => ConsumerProtectionRank(0),
            ExplicitConsumer::Momentum => ConsumerProtectionRank(1),
            ExplicitConsumer::Arb => ConsumerProtectionRank(2),
            ExplicitConsumer::Tracker => ConsumerProtectionRank(3),
        }
    }

    pub fn consumer(self) -> (r: ExplicitConsumer)
        ensures
            r.position() == if self.0 < 3 {
                self.0 as int
            } else {
                3
            },
    {
        match self.0 {
            0 => ExplicitConsumer::Wallet,
            1 => ExplicitConsumer::Momentum,
            2 => ExplicitConsumer::Arb,
            _ => ExplicitConsumer::Tracker,
        }
    }
}

/// A group that asks for room.
#[derive(Debug, Clone, PartialEq, Eq)]
pub struct TierFeasibilityRequest {
    pub incoming_owner: ExplicitOwner,
    pub incoming_pubkeys: Vec<Pubkey>,
    pub cap: usize,
}

/// How far eviction has to reach for a group.
#[derive(Debug, Clone, PartialEq, Eq)]
pub enum TierFeasibilityResult {
    NoEvictionNeeded { incoming_physical_added: usize, projected_final_len: usize },
    Feasible {
        incoming_physical_added: usize,
        required_to_free: usize,
        opened_through: EvictionTier,
        maximally_freeable_pubkeys: Vec<Pubkey>,
    },
    RejectedProtected {
        incoming_physical_added: usize,
        required_to_free: usize,
        maximally_freeable_pubkeys: Vec<Pubkey>,
    },
    RejectedInvalidInput,
    InternalInvariantViolation,
}

/// Same shape as a feasibility request.
pub type VictimSelectionRequest = TierFeasibilityRequest;

/// Which groups to let go, and what that does.
#[derive(Debug, Clone, PartialEq, Eq)]
pub struct VictimSelectionPlan {
    pub victims: Vec<ExplicitOwner>,
    pub physical_freed: Vec<Pubkey>,
    pub incoming_physical_added: usize,
    pub projected_final_len: usize,
    pub opened_through: EvictionTier,
}

/// Outcome of victim selection for an incoming group.
#[derive(Debug, Clone, PartialEq, Eq)]
pub enum VictimSelectionResult {
    NoEvictionNeeded { incoming_physical_added: usize, projected_final_len: usize },
    Planned(VictimSelectionPlan),
    RejectedProtected { incoming_physical_added: usize, required_to_free: usize },
    RejectedInvalidInput,
    InternalInvariantViolation,
}

/// Which groups to let go for a smaller cap.
#[derive(Debug, Clone, PartialEq, Eq)]
pub struct CapShrinkSelectionPlan {
    pub victims: Vec<ExplicitOwner>,
    pub physical_freed: Vec<Pubkey>,
    pub projected_final_len: usize,
    pub opened_through: EvictionTier,
}

/// Outcome of victim selection for a smaller cap.
#[derive(Debug, Clone, PartialEq, Eq)]
pub enum CapShrinkSelectionResult {
    NoShrinkNeeded,
    Planned(CapShrinkSelectionPlan),
    RejectedProtected { required_to_free: usize },
    InternalInvariantViolation,
}

/// The owners of a list of records.
pub open spec fn record_owners(records: Seq<OwnerPlanningRecord>) -> Seq<ExplicitOwner> {
    records.map_values(|r: OwnerPlanningRecord| r.owner)
}

/// The addresses of a list of rows.
pub open spec fn row_pubkeys(rows: Seq<PubkeyOwnerIndex>) -> Seq<Pubkey> {
    rows.map_values(|r: PubkeyOwnerIndex| r.pubkey)
}

/// The groups that a list of records holds.
pub open spec fn record_groups(records: Seq<OwnerPlanningRecord>) -> Groups {
    Map::new(
        |o: ExplicitOwner| record_owners(records).contains(o),
        |o: ExplicitOwner| records[record_owners(records).index_of(o)].pubkeys@,
    )
}

/// The stamps that a list of records holds.
pub open spec fn record_stamps(records: Seq<OwnerPlanningRecord>) -> Stamps {
    Map::new(
        |o: ExplicitOwner| record_owners(records).contains(o),
        |o: ExplicitOwner| records[record_owners(records).index_of(o)].last_touch,
    )
}

/// One row per tracked address, in order, with exactly its owners.
pub open spec fn rows_index(rows: Seq<PubkeyOwnerIndex>, groups: Groups) -> bool {
    &&& ordered::lists(row_pubkeys(rows), owner_index::physical(groups))
    &&& forall|i: int|
        0 <= i < rows.len() ==> {
            &&& ordered::lists(
                (#[trigger] rows[i]).owners@,
                owner_index::owners_of(groups, rows[i].pubkey),
            )
            &&& rows[i].refcount == rows[i].owners@.len()
        }
}

proof fn lemma_record(records: Seq<OwnerPlanningRecord>, i: int)
    requires
        ordered::sorted(record_owners(records)),
        0 <= i < records.len(),
    ensures
        record_groups(records).dom().contains(records[i].owner),
        record_groups(records)[records[i].owner] == records[i].pubkeys@,
        record_stamps(records)[records[i].owner] == records[i].last_touch,
{
    let names = record_owners(records);
    assert(names[i] == records[i].owner);
    let p = names.index_of(records[i].owner);
    assert(0 <= p < names.len() && names[p] == names[i]);
    if p < i {
        assert(names[p].rank() < names[i].rank());
    } else if i < p {
        assert(names[i].rank() < names[p].rank());
    }
}

/// The first entry that repeats an owner or names one without a group.
pub open spec fn first_bad_entry(
    entries: Seq<OwnerLruEntry>,
    owners: Set<ExplicitOwner>,
    i: int,
) -> bool {
    &&& 0 <= i < entries.len()
    &&& repeats(entries, i) || !owners.contains(entries[i].owner)
    &&& forall|j: int|
        0 <= j < i ==> !repeats(entries, j) && owners.contains((#[trigger] entries[j]).owner)
}

/// An earlier entry has the same owner.
pub open spec fn repeats(entries: Seq<OwnerLruEntry>, i: int) -> bool {
    exists|j: int| 0 <= j < i && (#[trigger] entries[j]).owner == entries[i].owner
}

/// Whether some entry names `owner`.
pub open spec fn has_entry(entries: Seq<OwnerLruEntry>, owner: ExplicitOwner) -> bool {
    exists|j: int| 0 <= j < entries.len() && (#[trigger] entries[j]).owner == owner
}

/// Every entry is in order, and every owner of `owners` has one.
pub open spec fn entries_complete(entries: Seq<OwnerLruEntry>, owners: Set<ExplicitOwner>) -> bool {
    &&& forall|i: int| !first_bad_entry(entries, owners, i)
    &&& forall|o: ExplicitOwner| #[trigger] owners.contains(o) ==> has_entry(entries, o)
}

/// What building a snapshot comes to: the entries are complete and the snapshot holds the groups
/// and their stamps, or the first fault is named.
pub open spec fn build_outcome(
    groups: Groups,
    entries: Seq<OwnerLruEntry>,
    r: Result<EvictionPlanningSnapshot, SnapshotBuildError>,
) -> bool {
    match r {
        Ok(snapshot) => {
            &&& entries_complete(entries, groups.dom())
            &&& snapshot.wf()
            &&& snapshot.groups() =~= groups
            &&& forall|i: int|
                0 <= i < entries.len() ==> snapshot.stamps()[(#[trigger] entries[i]).owner]
                    == entries[i].last_touch
        },
        Err(SnapshotBuildError::DuplicateLruOwner(o)) => exists|i: int|
            #![trigger entries[i]]
            first_bad_entry(entries, groups.dom(), i) && repeats(entries, i) && o
                == entries[i].owner,
        Err(SnapshotBuildError::UnknownLruOwner(o)) => exists|i: int|
            #![trigger entries[i]]
            first_bad_entry(entries, groups.dom(), i) && !repeats(entries, i) && o
                == entries[i].owner,
        Err(SnapshotBuildError::MissingLruEntry(o)) => {
            &&& forall|i: int| !first_bad_entry(entries, groups.dom(), i)
            &&& groups.dom().contains(o)
            &&& !has_entry(entries, o)
            &&& forall|p: ExplicitOwner| #[trigger]
                groups.dom().contains(p) && p.rank() < o.rank() ==> has_entry(entries, p)
        },
        Err(_) => false,
    }
}

/// How many of the keys are not tracked yet.
pub open spec fn added_count(groups: Groups, keys: Seq<Pubkey>) -> nat {
    keys.to_set().difference(owner_index::physical(groups)).len()
}

/// What a tier can free at most.
pub open spec fn freeable(groups: Groups, tier: EvictionTier, incoming: Set<Pubkey>) -> Set<Pubkey> {
    eviction_model::freed(groups, eviction_model::evictable(groups, tier), incoming)
}

/// The lowest tier, among those that `consumer` may open, that frees enough.
pub open spec fn opened_tier(
    groups: Groups,
    incoming: Set<Pubkey>,
    consumer: ExplicitConsumer,
    required: int,
) -> Option<EvictionTier> {
    if freeable(groups, EvictionTier::Tracker, incoming).len() >= required {
        Some(EvictionTier::Tracker)
    } else if EvictionTier::Arb.allowed_for(consumer) && freeable(
        groups,
        EvictionTier::Arb,
        incoming,
    ).len() >= required {
        Some(EvictionTier::Arb)
    } else if EvictionTier::Momentum.allowed_for(consumer) && freeable(
        groups,
        EvictionTier::Momentum,
        incoming,
    ).len() >= required {
        Some(EvictionTier::Momentum)
    } else {
        None
    }
}

/// What feasibility analysis answers for a request.
pub open spec fn feasibility(
    groups: Groups,
    physical_len: usize,
    owner: ExplicitOwner,
    keys: Seq<Pubkey>,
    cap: usize,
    result: TierFeasibilityResult,
) -> bool {
    let added = added_count(groups, keys);
    let projected = physical_len + added;
    let required = projected - cap;
    let consumer = owner.consumer;
    if keys.len() == 0 || groups.dom().contains(owner) {
        result is RejectedInvalidInput
    } else if projected > usize::MAX {
        result is InternalInvariantViolation
    } else if projected <= cap {
        result == (TierFeasibilityResult::NoEvictionNeeded {
            incoming_physical_added: added as usize,
            projected_final_len: projected as usize,
        })
    } else {
        match opened_tier(groups, keys.to_set(), consumer, required) {
            Some(tier) => {
                &&& result matches TierFeasibilityResult::Feasible {
                    incoming_physical_added,
                    required_to_free,
                    opened_through,
                    maximally_freeable_pubkeys,
                }
                &&& incoming_physical_added == added
                &&& required_to_free == required
                &&& opened_through == tier
                &&& ordered::lists(
                    maximally_freeable_pubkeys@,
                    freeable(groups, tier, keys.to_set()),
                )
            },
            None => {
                &&& result matches TierFeasibilityResult::RejectedProtected {
                    incoming_physical_added,
                    required_to_free,
                    maximally_freeable_pubkeys,
                }
                &&& incoming_physical_added == added
                &&& required_to_free == required
                &&& ordered::lists(
                    maximally_freeable_pubkeys@,
                    freeable(groups, EvictionTier::last_for(consumer), keys.to_set()),
                )
            },
        }
    }
}

impl EvictionPlanningSnapshot {
    /// The owner groups.
    pub closed spec fn groups(&self) -> Groups {
        record_groups(self.owners@)
    }

    /// The touch stamp of each owner.
    pub closed spec fn stamps(&self) -> Stamps {
        record_stamps(self.owners@)
    }

    pub closed spec fn counted_len(&self) -> usize {
        self.physical_len
    }

    /// Records and rows are consistent.
    pub closed spec fn parts_ok(&self) -> bool {
        &&& self.names@ =~= record_owners(self.owners@)
        &&& ordered::sorted(self.names@)
        &&& owner_index::groups_ok(self.groups())
        &&& rows_index(self.pubkey_index@, self.groups())
        &&& self.physical_pubkeys@ =~= row_pubkeys(self.pubkey_index@)
    }

    /// Consistent, and the counted length is the number of tracked addresses.
    pub open spec fn wf(&self) -> bool {
        &&& self.parts_ok()
        &&& self.counted_len() == owner_index::physical(self.groups()).len()
    }

    /// What a consistent snapshot guarantees.
    pub proof fn lemma_parts(&self)
        requires
            self.parts_ok(),
        ensures
            owner_index::groups_ok(self.groups()),
            self.stamps().dom() =~= self.groups().dom(),
            owner_index::physical(self.groups()).finite(),
            owner_index::physical(self.groups()).len() <= usize::MAX,
    {
        owner_index::lemma_physical_finite(self.groups());
        ordered::lemma_sorted_no_duplicates(self.physical_pubkeys@);
        assert(self.physical_pubkeys.len() == self.physical_pubkeys@.len());
    }

    pub fn physical_len(&self) -> (r: usize)
        ensures
            r == self.counted_len(),
    {
        self.physical_len
    }

    pub fn physical_pubkeys(&self) -> (r: &[Pubkey])
        requires
            self.parts_ok(),
        ensures
            ordered::lists(r@, owner_index::physical(self.groups())),
    {
        self.physical_pubkeys.as_slice()
    }

    /// The records, by owner.
    pub fn owners(&self) -> (r: &[OwnerPlanningRecord])
        requires
            self.parts_ok(),
        ensures
            ordered::sorted(record_owners(r@)),
            record_groups(r@) == self.groups(),
            record_stamps(r@) == self.stamps(),
    {
        self.owners.as_slice()
    }

    /// The rows, by address.
    pub fn pubkey_index(&self) -> (r: &[PubkeyOwnerIndex])
        requires
            self.parts_ok(),
        ensures
            rows_index(r@, self.groups()),
    {
        self.pubkey_index.as_slice()
    }

    pub fn owner_record(&self, owner: &ExplicitOwner) -> (r: Option<&OwnerPlanningRecord>)
        requires
            self.parts_ok(),
        ensures
            match r {
                Some(record) => {
                    &&& self.groups().dom().contains(*owner)
                    &&& record.owner == *owner
                    &&& record.pubkeys@ == self.groups()[*owner]
                    &&& record.last_touch == self.stamps()[*owner]
                },
                None => !self.groups().dom().contains(*owner),
            },
    {
        match ordered::find(self.names.as_slice(), owner) {
            Ok(i) => {
                proof {
                    lemma_record(self.owners@, i as int);
                    assert(self.names@[i as int] == self.owners@[i as int].owner);
                }
                Some(&self.owners[i])
            },
            Err(_) => None,
        }
    }

    pub fn owner_refcount(&self, pubkey: &Pubkey) -> (n: usize)
        requires
            self.parts_ok(),
        ensures
            n == owner_index::owners_of(self.groups(), *pubkey).len(),
    {
        match self.row(pubkey) {
            Some(i) => {
                proof {
                    ordered::lemma_sorted_no_duplicates(self.pubkey_index@[i as int].owners@);
                }
                self.pubkey_index[i].refcount
            },
            None => {
                proof {
                    owner_index::lemma_physical_owner(self.groups(), *pubkey);
                }
                0
            },
        }
    }

    pub fn pubkey_owners(&self, pubkey: &Pubkey) -> (r: Option<&[ExplicitOwner]>)
        requires
            self.parts_ok(),
        ensures
            match r {
                Some(owners) => {
                    &&& owner_index::physical(self.groups()).contains(*pubkey)
                    &&& ordered::lists(owners@, owner_index::owners_of(self.groups(), *pubkey))
                },
                None => !owner_index::physical(self.groups()).contains(*pubkey),
            },
    {
        match self.row(pubkey) {
            Some(i) => Some(self.pubkey_index[i].owners.as_slice()),
            None => None,
        }
    }

    pub fn last_touch(&self, owner: &ExplicitOwner) -> (r: Option<u64>)
        requires
            self.parts_ok(),
        ensures
            r == if self.groups().dom().contains(*owner) {
                Some(self.stamps()[*owner])
            } else {
                None
            },
    {
        match self.owner_record(owner) {
            Some(record) => Some(record.last_touch),
            None => None,
        }
    }

    /// The position of the row of `pubkey`.
    fn row(&self, pubkey: &Pubkey) -> (r: Option<usize>)
        requires
            self.parts_ok(),
        ensures
            match r {
                Some(i) => {
                    &&& i < self.pubkey_index@.len()
                    &&& self.pubkey_index@[i as int].pubkey == *pubkey
                    &&& owner_index::physical(self.groups()).contains(*pubkey)
                },
                None => !owner_index::physical(self.groups()).contains(*pubkey),
            },
    {
        match ordered::find(self.physical_pubkeys.as_slice(), pubkey) {
            Ok(i) => {
                proof {
                    assert(self.physical_pubkeys@.to_set().contains(*pubkey));
                }
                Some(i)
            },
            Err(_) => {
                proof {
                    assert(!self.physical_pubkeys@.to_set().contains(*pubkey));
                }
                None
            },
        }
    }

    /// Builds a snapshot from ownership and one stamp per owner.
    pub fn from_ownership(ownership: &ExplicitOwnership, lru_entries: Vec<OwnerLruEntry>) -> (r:
        Result<Self, SnapshotBuildError>)
        requires
            ownership.wf(),
        ensures
            build_outcome(ownership@, lru_entries@, r),
    {
        let mut stats = BuildStats::default();
        Self::from_ownership_with_stats(ownership, lru_entries, &mut stats)
    }

    /// Builds a snapshot and counts the work; a fault in the entries is found before any.
    pub fn from_ownership_with_stats(
        ownership: &ExplicitOwnership,
        lru_entries: Vec<OwnerLruEntry>,
        stats: &mut BuildStats,
    ) -> (r: Result<Self, SnapshotBuildError>)
        requires
            ownership.wf(),
        ensures
            build_outcome(ownership@, lru_entries@, r),
            *final(stats) == if r is Ok {
                old(stats).after_build(ownership@)
            } else {
                *old(stats)
            },
    {
        let mut stamps: OrderedMap<ExplicitOwner, u64> = OrderedMap::new();
        let mut i: usize = 0;
        while i < lru_entries.len()
            invariant
                ownership.wf(),
                stamps.wf(),
                0 <= i <= lru_entries@.len(),
                forall|j: int|
                    0 <= j < i ==> {
                        &&& !repeats(lru_entries@, j)
                        &&& ownership@.dom().contains((#[trigger] lru_entries@[j]).owner)
                        &&& stamps@.dom().contains(lru_entries@[j].owner)
                        &&& stamps@[lru_entries@[j].owner] == lru_entries@[j].last_touch
                    },
                forall|o: ExplicitOwner| #[trigger]
                    stamps@.dom().contains(o) ==> exists|j: int|
                        0 <= j < i && (#[trigger] lru_entries@[j]).owner == o,
            decreases lru_entries@.len() - i,
        {
            let entry: OwnerLruEntry = lru_entries[i];
            if stamps.contains_key(&entry.owner) {
                proof {
                    assert(repeats(lru_entries@, i as int));
                    assert(first_bad_entry(lru_entries@, ownership@.dom(), i as int));
                }
                return Err(SnapshotBuildError::DuplicateLruOwner(entry.owner));
            }
            proof {
                assert(!repeats(lru_entries@, i as int)) by {
                    if repeats(lru_entries@, i as int) {
                        let j = choose|j: int|
                            0 <= j < i && (#[trigger] lru_entries@[j]).owner
                                == lru_entries@[i as int].owner;
                        assert(stamps@.dom().contains(lru_entries@[j].owner));
                    }
                }
            }
            if !ownership.contains_owner(&entry.owner) {
                proof {
                    assert(first_bad_entry(lru_entries@, ownership@.dom(), i as int));
                }
                return Err(SnapshotBuildError::UnknownLruOwner(entry.owner));
            }
            let ghost before = stamps@;
            let _ = stamps.insert(entry.owner, entry.last_touch);
            proof {
                assert forall|o: ExplicitOwner| #[trigger] stamps@.dom().contains(o) implies exists|
                    j: int,
                |
                    0 <= j < i + 1 && (#[trigger] lru_entries@[j]).owner == o by {
                    if o == entry.owner {
                        assert(lru_entries@[i as int].owner == o);
                    } else {
                        assert(before.dom().contains(o));
                        let j = choose|j: int| 0 <= j < i && (#[trigger] lru_entries@[j]).owner == o;
                        assert(lru_entries@[j].owner == o);
                    }
                }
            }
            i = i + 1;
        }
        proof {
            assert forall|k: int| !first_bad_entry(lru_entries@, ownership@.dom(), k) by {
                if 0 <= k < lru_entries@.len() {
                    assert(ownership@.dom().contains(lru_entries@[k].owner));
                }
            }
        }
        let names = ownership.owners();
        let mut records: Vec<OwnerPlanningRecord> = Vec::new();
        let mut records_built: u64 = stats.owner_records_built;
        let mut key_edges: u64 = stats.group_key_edges;
        let mut n: usize = 0;
        while n < names.len()
            invariant
                ownership.wf(),
                *stats == *old(stats),
                records_built == eviction_model::saturated(stats.owner_records_built, n as int),
                key_edges == eviction_model::saturated(
                    stats.group_key_edges,
                    eviction_model::edges(
                        ownership@,
                        names@.take(n as int),
                        Set::empty(),
                    ) as int,
                ),
                stamps.wf(),
                ordered::lists(names@, ownership@.dom()),
                0 <= n <= names@.len(),
                records@.len() == n,
                forall|o: ExplicitOwner| #[trigger]
                    stamps@.dom().contains(o) ==> has_entry(lru_entries@, o),
                forall|j: int|
                    0 <= j < lru_entries@.len() ==> stamps@.dom().contains(
                        (#[trigger] lru_entries@[j]).owner,
                    ),
                forall|k: int| !first_bad_entry(lru_entries@, ownership@.dom(), k),
                forall|j: int|
                    0 <= j < n ==> {
                        &&& (#[trigger] records@[j]).owner == names@[j]
                        &&& records@[j].pubkeys@ == ownership@[names@[j]]
                        &&& stamps@.dom().contains(names@[j])
                        &&& records@[j].last_touch == stamps@[names@[j]]
                    },
            decreases names@.len() - n,
        {
            let owner: ExplicitOwner = names[n];
            proof {
                assert(names@.to_set().contains(owner));
            }
            match stamps.get(&owner) {
                None => {
                    proof {
                        assert(!has_entry(lru_entries@, owner));
                        assert forall|p: ExplicitOwner| #[trigger]
                            ownership@.dom().contains(p) && p.rank() < owner.rank() implies
                            has_entry(lru_entries@, p) by {
                            assert(names@.to_set().contains(p));
                            let j = choose|j: int| 0 <= j < names@.len() && names@[j] == p;
                            if j > n {
                                assert(names@[n as int].rank() < names@[j].rank());
                            }
                            assert(j < n);
                            assert(records@[j].owner == names@[j]);
                        }
                    }
                    return Err(SnapshotBuildError::MissingLruEntry(owner));
                },
                Some(touch) => {
                    let last_touch: u64 = *touch;
                    match ownership.owner_group(&owner) {
                        Some(keys) => {
                            records_built = records_built.saturating_add(1);
                            key_edges = key_edges.saturating_add(keys.len() as u64);
                            proof {
                                assert(names@.take(n + 1).drop_last() =~= names@.take(n as int));
                            }
                            records.push(
                                OwnerPlanningRecord {
                                    owner,
                                    last_touch,
                                    pubkeys: ordered::copy_keys(keys),
                                },
                            );
                        },
                        None => {},
                    }
                },
            }
            n = n + 1;
        }
        proof {
            ownership.lemma_wf();
            assert(record_owners(records@) =~= names@);
            lemma_records_match(records@, ownership@);
        }
        stats.owner_records_built = records_built;
        stats.group_key_edges = key_edges;
        proof {
            assert(names@.take(n as int) =~= names@);
            ordered::lemma_in_order(names@, ownership@.dom());
            ordered::lemma_sorted_no_duplicates(names@);
        }
        let canonical_pubkeys = ownership.snapshot_pubkeys();
        let rows = build_pubkey_index(records.as_slice(), stats);
        proof {
            ordered::lemma_sorted_unique(row_pubkeys(rows@), canonical_pubkeys@);
            assert forall|j: int| 0 <= j < rows@.len() implies (#[trigger] rows@[j]).refcount
                == owner_index::owners_of(ownership@, rows@[j].pubkey).len() by {
                ordered::lemma_sorted_no_duplicates(rows@[j].owners@);
            }
        }
        match validate_against_ownership(
            ownership,
            canonical_pubkeys.as_slice(),
            rows.as_slice(),
            stats,
        ) {
            Ok(()) => {},
            Err(error) => {
                return Err(error);
            },
        }
        let physical_pubkeys = canonical_pubkeys;
        let snapshot = EvictionPlanningSnapshot {
            physical_len: physical_pubkeys.len(),
            physical_pubkeys,
            names,
            owners: records,
            pubkey_index: rows,
        };
        proof {
            ownership.lemma_wf();
            assert(row_pubkeys(snapshot.pubkey_index@) =~= snapshot.physical_pubkeys@);
            ordered::lemma_sorted_no_duplicates(snapshot.physical_pubkeys@);
            assert forall|j: int| 0 <= j < lru_entries@.len() implies snapshot.stamps()[(
            #[trigger] lru_entries@[j]).owner] == lru_entries@[j].last_touch by {
                let o = lru_entries@[j].owner;
                assert(ownership@.dom().contains(o)) by {
                    assert(!first_bad_entry(lru_entries@, ownership@.dom(), j));
                }
                assert(snapshot.names@.to_set().contains(o));
                let m = choose|m: int| 0 <= m < snapshot.names@.len() && snapshot.names@[m] == o;
                lemma_record(snapshot.owners@, m);
                assert(snapshot.owners@[m].owner == o);
            }
        }
        Ok(snapshot)
    }

    /// A snapshot of the given parts with any counted length.
    pub fn test_only(
        physical_len: usize,
        owners: Vec<OwnerPlanningRecord>,
        pubkey_index: Vec<PubkeyOwnerIndex>,
    ) -> (r: Self)
        requires
            ordered::sorted(record_owners(owners@)),
            owner_index::groups_ok(record_groups(owners@)),
            rows_index(pubkey_index@, record_groups(owners@)),
        ensures
            r.parts_ok(),
            r.counted_len() == physical_len,
            r.groups() == record_groups(owners@),
            r.stamps() == record_stamps(owners@),
    {
        let mut names: Vec<ExplicitOwner> = Vec::new();
        let mut i: usize = 0;
        while i < owners.len()
            invariant
                0 <= i <= owners@.len(),
                names@ =~= record_owners(owners@).take(i as int),
            decreases owners@.len() - i,
        {
            names.push(owners[i].owner);
            i = i + 1;
        }
        let physical_pubkeys = pubkeys_of_rows(pubkey_index.as_slice());
        EvictionPlanningSnapshot { physical_len, physical_pubkeys, names, owners, pubkey_index }
    }

    /// Says how far eviction has to reach for the request.
    pub fn analyze_tier_feasibility(&self, request: TierFeasibilityRequest) -> (r:
        TierFeasibilityResult)
        requires
            self.parts_ok(),
        ensures
            feasibility(
                self.groups(),
                self.counted_len(),
                request.incoming_owner,
                request.incoming_pubkeys@,
                request.cap,
                r,
            ),
    {
        let incoming = ordered::normalize(request.incoming_pubkeys.as_slice());
        if incoming.len() == 0 {
            proof {
                if request.incoming_pubkeys@.len() > 0 {
                    assert(incoming@.len() > 0);
                }
            }
            return TierFeasibilityResult::RejectedInvalidInput;
        }
        proof {
            assert(request.incoming_pubkeys@.len() > 0) by {
                if request.incoming_pubkeys@.len() == 0 {
                    assert(incoming@.to_set().contains(incoming@[0]));
                }
            }
        }
        if self.owner_record(&request.incoming_owner).is_some() {
            return TierFeasibilityResult::RejectedInvalidInput;
        }
        let incoming_physical_added: usize = self.count_untracked(incoming.as_slice());
        let projected_final_len: usize = match self.physical_len.checked_add(
            incoming_physical_added,
        ) {
            Some(len) => len,
            None => {
                return TierFeasibilityResult::InternalInvariantViolation;
            },
        };
        if projected_final_len <= request.cap {
            return TierFeasibilityResult::NoEvictionNeeded {
                incoming_physical_added,
                projected_final_len,
            };
        }
        let required_to_free: usize = projected_final_len - request.cap;
        let consumer = request.incoming_owner.consumer;
        match self.open_tier(incoming.as_slice(), consumer, required_to_free) {
            Some((opened_through, maximally_freeable_pubkeys)) => TierFeasibilityResult::Feasible {
                incoming_physical_added,
                required_to_free,
                opened_through,
                maximally_freeable_pubkeys,
            },
            None => {
                let last = last_allowed_tier(consumer);
                TierFeasibilityResult::RejectedProtected {
                    incoming_physical_added,
                    required_to_free,
                    maximally_freeable_pubkeys: self.freeable_pubkeys(last, incoming.as_slice()),
                }
            },
        }
    }

    /// How many of the keys have no owner.
    fn count_untracked(&self, keys: &[Pubkey]) -> (n: usize)
        requires
            self.parts_ok(),
            ordered::sorted(keys@),
        ensures
            n == added_count(self.groups(), keys@),
    {
        let ghost tracked_keys = owner_index::physical(self.groups());
        let mut n: usize = 0;
        let mut i: usize = 0;
        proof {
            assert(keys@.take(0).to_set().difference(tracked_keys) =~= Set::empty());
        }
        while i < keys.len()
            invariant
                self.parts_ok(),
                ordered::sorted(keys@),
                tracked_keys == owner_index::physical(self.groups()),
                0 <= i <= keys@.len(),
                n <= i,
                keys@.take(i as int).to_set().difference(tracked_keys).finite(),
                n == keys@.take(i as int).to_set().difference(tracked_keys).len(),
            decreases keys@.len() - i,
        {
            let key: Pubkey = keys[i];
            let ghost before = keys@.take(i as int).to_set();
            proof {
                ordered::lemma_take_step(keys@, i as int);
                assert(!before.contains(key)) by {
                    if before.contains(key) {
                        let p = choose|p: int| 0 <= p < i && keys@.take(i as int)[p] == key;
                        assert(keys@[p].rank() < keys@[i as int].rank());
                    }
                }
            }
            if self.row(&key).is_none() {
                proof {
                    assert(before.insert(key).difference(tracked_keys) =~= before.difference(
                        tracked_keys,
                    ).insert(key));
                }
                n = n + 1;
            } else {
                proof {
                    assert(before.insert(key).difference(tracked_keys) =~= before.difference(
                        tracked_keys,
                    ));
                }
            }
            i = i + 1;
        }
        proof {
            assert(keys@.take(i as int) =~= keys@);
        }
        n
    }

    /// What the tier can free at most.
    fn freeable_pubkeys(&self, tier: EvictionTier, incoming: &[Pubkey]) -> (r: Vec<Pubkey>)
        requires
            self.parts_ok(),
            ordered::sorted(incoming@),
        ensures
            ordered::lists(r@, freeable(self.groups(), tier, incoming@.to_set())),
    {
        let ghost all = freeable(self.groups(), tier, incoming@.to_set());
        let mut out: Vec<Pubkey> = Vec::new();
        let mut i: usize = 0;
        while i < self.pubkey_index.len()
            invariant
                self.parts_ok(),
                ordered::sorted(incoming@),
                all == freeable(self.groups(), tier, incoming@.to_set()),
                0 <= i <= self.pubkey_index@.len(),
                ordered::lists(out@, self.physical_pubkeys@.take(i as int).to_set().intersect(all)),
            decreases self.pubkey_index@.len() - i,
        {
            let row = &self.pubkey_index[i];
            proof {
                ordered::lemma_take_step(self.physical_pubkeys@, i as int);
                assert(self.physical_pubkeys@[i as int] == row.pubkey);
                assert(self.physical_pubkeys@.to_set().contains(row.pubkey));
            }
            if !ordered::has(incoming, &row.pubkey) && all_open(tier, row.owners.as_slice()) {
                proof {
                    assert(all.contains(row.pubkey)) by {
                        assert forall|o: ExplicitOwner| owner_index::owners_of(
                            self.groups(),
                            row.pubkey,
                        ).contains(o) implies eviction_model::evictable(
                            self.groups(),
                            tier,
                        ).contains(o) by {
                            assert(row.owners@.to_set().contains(o));
                        }
                    }
                }
                let _ = ordered::add_key(&mut out, row.pubkey);
            } else {
                proof {
                    assert(!all.contains(row.pubkey)) by {
                        if all.contains(row.pubkey) {
                            assert forall|j: int| 0 <= j < row.owners@.len() implies tier.opens(
                                (#[trigger] row.owners@[j]).consumer,
                            ) by {
                                assert(row.owners@.to_set().contains(row.owners@[j]));
                                assert(eviction_model::evictable(self.groups(), tier).contains(
                                    row.owners@[j],
                                ));
                            }
                        }
                    }
                }
            }
            i = i + 1;
        }
        proof {
            assert(self.physical_pubkeys@.take(i as int) =~= self.physical_pubkeys@);
            assert(self.physical_pubkeys@.to_set().intersect(all) =~= all);
        }
        out
    }

    /// The lowest allowed tier that frees enough, with what it frees.
    fn open_tier(&self, incoming: &[Pubkey], consumer: ExplicitConsumer, required: usize) -> (r:
        Option<(EvictionTier, Vec<Pubkey>)>)
        requires
            self.parts_ok(),
            ordered::sorted(incoming@),
        ensures
            match r {
                Some((tier, keys)) => {
                    &&& opened_tier(self.groups(), incoming@.to_set(), consumer, required as int)
                        == Some(tier)
                    &&& ordered::lists(keys@, freeable(self.groups(), tier, incoming@.to_set()))
                },
                None => opened_tier(self.groups(), incoming@.to_set(), consumer, required as int)
                    is None,
            },
    {
        let keys = self.freeable_pubkeys(EvictionTier::Tracker, incoming);
        proof {
            ordered::lemma_sorted_no_duplicates(keys@);
        }
        if keys.len() >= required {
            return Some((EvictionTier::Tracker, keys));
        }
        let last = last_allowed_tier(consumer);
        if last == EvictionTier::Tracker {
            return None;
        }
        let keys = self.freeable_pubkeys(EvictionTier::Arb, incoming);
        proof {
            ordered::lemma_sorted_no_duplicates(keys@);
        }
        if keys.len() >= required {
            return Some((EvictionTier::Arb, keys));
        }
        if last == EvictionTier::Arb {
            return None;
        }
        let keys = self.freeable_pubkeys(EvictionTier::Momentum, incoming);
        proof {
            ordered::lemma_sorted_no_duplicates(keys@);
        }
        if keys.len() >= required {
            return Some((EvictionTier::Momentum, keys));
        }
        None
    }
}

/// Whether the tier lets every owner go.
fn all_open(tier: EvictionTier, owners: &[ExplicitOwner]) -> (r: bool)
    ensures
        r == forall|j: int| 0 <= j < owners@.len() ==> tier.opens((#[trigger] owners@[j]).consumer),
{
    let mut i: usize = 0;
    while i < owners.len()
        invariant
            0 <= i <= owners@.len(),
            forall|j: int| 0 <= j < i ==> tier.opens((#[trigger] owners@[j]).consumer),
        decreases owners@.len() - i,
    {
        if !tier_opens(tier, owners[i].consumer) {
            return false;
        }
        i = i + 1;
    }
    true
}

fn tier_opens(tier: EvictionTier, consumer: ExplicitConsumer) -> (r: bool)
    ensures
        r == tier.opens(consumer),
{
    match consumer {
        ExplicitConsumer::Wallet => false,
        ExplicitConsumer::Tracker => true,
        ExplicitConsumer::Arb => tier != EvictionTier::Tracker,
        ExplicitConsumer::Momentum => tier == EvictionTier::Momentum,
    }
}

fn last_allowed_tier(consumer: ExplicitConsumer) -> (r: EvictionTier)
    ensures
        r == EvictionTier::last_for(consumer),
{
    match consumer {
        ExplicitConsumer::Tracker => EvictionTier::Tracker,
        ExplicitConsumer::Arb => EvictionTier::Arb,
        ExplicitConsumer::Momentum | ExplicitConsumer::Wallet => EvictionTier::Momentum,
    }
}

proof fn lemma_records_match(records: Seq<OwnerPlanningRecord>, groups: Groups)
    requires
        ordered::lists(record_owners(records), groups.dom()),
        forall|j: int|
            0 <= j < records.len() ==> (#[trigger] records[j]).pubkeys@ == groups[records[j].owner],
    ensures
        record_groups(records) =~= groups,
{
    let names = record_owners(records);
    assert forall|o: ExplicitOwner| #[trigger] groups.dom().contains(o) implies record_groups(
        records,
    ).dom().contains(o) && record_groups(records)[o] == groups[o] by {
        assert(names.to_set().contains(o));
        let j = choose|j: int| 0 <= j < names.len() && names[j] == o;
        lemma_record(records, j);
        assert(records[j].owner == o);
    }
    assert forall|o: ExplicitOwner| record_groups(records).dom().contains(o) implies
        groups.dom().contains(o) by {
        assert(names.to_set().contains(o));
    }
}

fn pubkeys_of_rows(rows: &[PubkeyOwnerIndex]) -> (r: Vec<Pubkey>)
    ensures
        r@ =~= row_pubkeys(rows@),
{
    let mut out: Vec<Pubkey> = Vec::new();
    let mut i: usize = 0;
    while i < rows.len()
        invariant
            0 <= i <= rows@.len(),
            out@ =~= row_pubkeys(rows@).take(i as int),
        decreases rows@.len() - i,
    {
        out.push(rows[i].pubkey);
        i = i + 1;
    }
    out
}

/// Derives the rows from the records.
fn build_pubkey_index(records: &[OwnerPlanningRecord], stats: &mut BuildStats) -> (r: Vec<
    PubkeyOwnerIndex,
>)
    requires
        ordered::sorted(record_owners(records@)),
        owner_index::groups_ok(record_groups(records@)),
    ensures
        rows_index(r@, record_groups(records@)),
        *final(stats) == (BuildStats {
            reverse_index_inserts: eviction_model::saturated(
                old(stats).reverse_index_inserts,
                all_edges(record_groups(records@)) as int,
            ),
            ..*old(stats)
        }),
{
    let mut index: OwnerIndex<ExplicitOwner> = OwnerIndex::new();
    let ghost groups = record_groups(records@);
    let ghost names = record_owners(records@);
    let mut i: usize = 0;
    while i < records.len()
        invariant
            index.wf(),
            groups == record_groups(records@),
            names == record_owners(records@),
            ordered::sorted(names),
            owner_index::groups_ok(groups),
            0 <= i <= records@.len(),
            *stats == (BuildStats {
                reverse_index_inserts: eviction_model::saturated(
                    old(stats).reverse_index_inserts,
                    eviction_model::edges(groups, names.take(i as int), Set::empty()) as int,
                ),
                ..*old(stats)
            }),
            forall|o: ExplicitOwner| #[trigger]
                index@.dom().contains(o) <==> names.take(i as int).to_set().contains(o),
            forall|o: ExplicitOwner| #[trigger] index@.dom().contains(o) ==> index@[o] == groups[o],
        decreases records@.len() - i,
    {
        proof {
            lemma_record(records@, i as int);
            ordered::lemma_take_step(names, i as int);
            assert(names.take(i + 1).drop_last() =~= names.take(i as int));
        }
        stats.reverse_index_inserts = stats.reverse_index_inserts.saturating_add(
            records[i].pubkeys.len() as u64,
        );
        index.put(records[i].owner, ordered::copy_keys(records[i].pubkeys.as_slice()));
        i = i + 1;
    }
    proof {
        assert(names.take(i as int) =~= names);
        assert(index@ =~= groups);
        assert(names.to_set() =~= groups.dom());
        ordered::lemma_in_order(names, groups.dom());
    }
    let keys = index.pubkeys();
    let mut rows: Vec<PubkeyOwnerIndex> = Vec::new();
    let mut k: usize = 0;
    while k < keys.len()
        invariant
            index.wf(),
            index@ == groups,
            0 <= k <= keys@.len(),
            row_pubkeys(rows@) =~= keys@.take(k as int),
            rows@.len() == k,
            forall|j: int|
                0 <= j < k ==> {
                    &&& ordered::lists(
                        (#[trigger] rows@[j]).owners@,
                        owner_index::owners_of(groups, rows@[j].pubkey),
                    )
                    &&& rows@[j].refcount == rows@[j].owners@.len()
                },
        decreases keys@.len() - k,
    {
        let owners = index.owners(&keys[k]);
        let ghost before = rows@;
        rows.push(PubkeyOwnerIndex { pubkey: keys[k], refcount: owners.len(), owners });
        proof {
            assert(row_pubkeys(rows@) =~= row_pubkeys(before).push(keys@[k as int]));
        }
        k = k + 1;
    }
    proof {
        assert(keys@.take(k as int) =~= keys@);
    }
    rows
}

/// The first row whose refcount is not the one that ownership gives.
pub open spec fn first_miscount(rows: Seq<PubkeyOwnerIndex>, groups: Groups, i: int) -> bool {
    &&& 0 <= i < rows.len()
    &&& rows[i].refcount != owner_index::owners_of(groups, rows[i].pubkey).len()
    &&& forall|j: int|
        0 <= j < i ==> (#[trigger] rows[j]).refcount == owner_index::owners_of(
            groups,
            rows[j].pubkey,
        ).len()
}

/// Compares derived rows with ownership.
fn validate_against_ownership(
    ownership: &ExplicitOwnership,
    canonical_pubkeys: &[Pubkey],
    rows: &[PubkeyOwnerIndex],
    stats: &mut BuildStats,
) -> (r: Result<(), SnapshotBuildError>)
    requires
        ownership.wf(),
    ensures
        r is Ok ==> *final(stats) == (BuildStats {
            validation_reads: eviction_model::saturated(
                old(stats).validation_reads,
                1int + rows@.len(),
            ),
            ..*old(stats)
        }),
        match r {
            Ok(()) => {
                &&& row_pubkeys(rows@) =~= canonical_pubkeys@
                &&& forall|i: int| !first_miscount(rows@, ownership@, i)
            },
            Err(SnapshotBuildError::PhysicalLenMismatch { derived, canonical }) => {
                &&& derived == rows@.len()
                &&& canonical == canonical_pubkeys@.len()
                &&& derived != canonical
            },
            Err(SnapshotBuildError::PhysicalPubkeysMismatch) => {
                &&& rows@.len() == canonical_pubkeys@.len()
                &&& row_pubkeys(rows@) != canonical_pubkeys@
            },
            Err(SnapshotBuildError::RefcountMismatch { pubkey, derived, canonical }) => {
                &&& row_pubkeys(rows@) =~= canonical_pubkeys@
                &&& exists|i: int| #[trigger]
                    first_miscount(rows@, ownership@, i) && pubkey == rows@[i].pubkey && derived
                        == rows@[i].refcount
                &&& canonical == owner_index::owners_of(ownership@, pubkey).len()
            },
            Err(_) => false,
        },
{
    let derived_pubkeys = pubkeys_of_rows(rows);
    stats.validation_reads = stats.validation_reads.saturating_add(1);
    if !ordered::same_keys(derived_pubkeys.as_slice(), canonical_pubkeys) {
        if derived_pubkeys.len() != canonical_pubkeys.len() {
            return Err(
                SnapshotBuildError::PhysicalLenMismatch {
                    derived: derived_pubkeys.len(),
                    canonical: canonical_pubkeys.len(),
                },
            );
        }
        return Err(SnapshotBuildError::PhysicalPubkeysMismatch);
    }
    let mut i: usize = 0;
    while i < rows.len()
        invariant
            ownership.wf(),
            row_pubkeys(rows@) =~= canonical_pubkeys@,
            0 <= i <= rows@.len(),
            *stats == (BuildStats {
                validation_reads: eviction_model::saturated(
                    old(stats).validation_reads,
                    1 + i,
                ),
                ..*old(stats)
            }),
            forall|j: int|
                0 <= j < i ==> (#[trigger] rows@[j]).refcount == owner_index::owners_of(
                    ownership@,
                    rows@[j].pubkey,
                ).len(),
        decreases rows@.len() - i,
    {
        stats.validation_reads = stats.validation_reads.saturating_add(1);
        let canonical: usize = ownership.owner_refcount(&rows[i].pubkey);
        if rows[i].refcount != canonical {
            proof {
                assert(first_miscount(rows@, ownership@, i as int));
            }
            return Err(
                SnapshotBuildError::RefcountMismatch {
                    pubkey: rows[i].pubkey,
                    derived: rows[i].refcount,
                    canonical,
                },
            );
        }
        i = i + 1;
    }
    Ok(())
}

/// The eviction priority of a consumer; lower goes first.
fn consumer_eviction_priority(consumer: ExplicitConsumer) -> (r: u8)
    ensures
        r == eviction_model::priority(consumer),
{
    match consumer {
        ExplicitConsumer::Tracker => 0,
        ExplicitConsumer::Arb => 1,
        ExplicitConsumer::Momentum => 2,
        ExplicitConsumer::Wallet => u8::MAX,
    }
}

/// The keys whose owner is among `owners`.
spec fn within(keys: Set<EvictionKey>, owners: Set<ExplicitOwner>) -> Set<EvictionKey> {
    keys.filter(|k: EvictionKey| owners.contains(k.owner))
}

/// The evictable owners, in eviction order.
fn build_sorted_candidates(snapshot: &EvictionPlanningSnapshot, tier: EvictionTier) -> (r: Vec<
    EvictionKey,
>)
    requires
        snapshot.parts_ok(),
    ensures
        ordered::lists(
            r@,
            eviction_model::keys_of(
                snapshot.stamps(),
                eviction_model::evictable(snapshot.groups(), tier),
            ),
        ),
{
    let ghost all = eviction_model::keys_of(
        snapshot.stamps(),
        eviction_model::evictable(snapshot.groups(), tier),
    );
    let ghost names = snapshot.names@;
    let mut out: Vec<EvictionKey> = Vec::new();
    let mut i: usize = 0;
    while i < snapshot.owners.len()
        invariant
            snapshot.parts_ok(),
            names == snapshot.names@,
            all == eviction_model::keys_of(
                snapshot.stamps(),
                eviction_model::evictable(snapshot.groups(), tier),
            ),
            0 <= i <= snapshot.owners@.len(),
            ordered::sorted(out@),
            out@.to_set() =~= within(all, names.take(i as int).to_set()),
        decreases snapshot.owners@.len() - i,
    {
        let record = &snapshot.owners[i];
        proof {
            lemma_record(snapshot.owners@, i as int);
            ordered::lemma_take_step(names, i as int);
            assert(names[i as int] == record.owner);
        }
        let ghost before = out@.to_set();
        if tier_opens(tier, record.owner.consumer) {
            let key = EvictionKey {
                priority: consumer_eviction_priority(record.owner.consumer),
                last_touch: record.last_touch,
                owner: record.owner,
            };
            proof {
                assert(key == eviction_model::key_of(snapshot.stamps(), record.owner));
                assert(all.contains(key));
            }
            let _ = ordered::add_key(&mut out, key);
        }
        proof {
            let step = within(all, names.take(i + 1).to_set());
            assert forall|k: EvictionKey| out@.to_set().contains(k) == step.contains(k) by {
                assert(before.contains(k) == within(all, names.take(i as int).to_set()).contains(k));
                if all.contains(k) && k.owner == record.owner {
                    assert(k == eviction_model::key_of(snapshot.stamps(), record.owner));
                }
            }
            assert(out@.to_set() =~= step);
        }
        i = i + 1;
    }
    proof {
        assert(names.take(i as int) =~= names);
        assert forall|k: EvictionKey| out@.to_set().contains(k) == all.contains(k) by {
            if all.contains(k) {
                assert(snapshot.groups().dom().contains(k.owner));
                assert(names.to_set().contains(k.owner));
            }
        }
    }
    out
}

/// How much work selecting victims took.
#[derive(Debug, Clone, PartialEq, Eq)]
pub struct SelectorStats {
    /// Owners of the tracked addresses, counted with repetitions, at the start.
    pub initial_edges: u64,
    /// Owners looked at.
    pub candidate_evaluations: u64,
    /// Refcounts lowered.
    pub incremental_refcount_updates: u64,
    /// Packages looked at.
    pub package_evaluations: u64,
}

impl Default for SelectorStats {
    fn default() -> (r: Self)
        ensures
            r == (SelectorStats {
                initial_edges: 0,
                candidate_evaluations: 0,
                incremental_refcount_updates: 0,
                package_evaluations: 0,
            }),
    {
        SelectorStats {
            initial_edges: 0,
            candidate_evaluations: 0,
            incremental_refcount_updates: 0,
            package_evaluations: 0,
        }
    }
}

impl SelectorStats {
    /// The counters after a selection that started with so many edges and took this work.
    pub open spec fn after_work(self, edges: nat, work: SelectionWork) -> SelectorStats {
        SelectorStats {
            initial_edges: eviction_model::saturated(self.initial_edges, edges as int),
            candidate_evaluations: eviction_model::saturated(
                self.candidate_evaluations,
                work.evaluations as int,
            ),
            incremental_refcount_updates: eviction_model::saturated(
                self.incremental_refcount_updates,
                work.updates as int,
            ),
            package_evaluations: eviction_model::saturated(
                self.package_evaluations,
                work.packages as int,
            ),
        }
    }

    /// The counters after a selection from `groups`.
    pub open spec fn after_selection(
        self,
        groups: Groups,
        stamps: Stamps,
        tier: EvictionTier,
        incoming: Set<Pubkey>,
        required: int,
    ) -> SelectorStats {
        self.after_work(
            eviction_model::owner_edges(
                groups,
                ordered::in_order(owner_index::physical(groups)),
            ),
            eviction_model::selection_work(groups, stamps, tier, incoming, required, Seq::empty()),
        )
    }
}

/// Selection in progress.
struct SelectorWorkspace<'a> {
    snapshot: &'a EvictionPlanningSnapshot,
    incoming: &'a [Pubkey],
    tier: EvictionTier,
    projected_refcounts: Vec<usize>,
    selected: Vec<ExplicitOwner>,
    victims: Vec<ExplicitOwner>,
    freed_pubkeys: Vec<Pubkey>,
}

/// Each count is the number of owners left of its row's address.
spec fn counts_ok(
    counts: Seq<usize>,
    rows: Seq<PubkeyOwnerIndex>,
    groups: Groups,
    gone: Set<ExplicitOwner>,
) -> bool {
    &&& counts.len() == rows.len()
    &&& forall|i: int|
        0 <= i < rows.len() ==> #[trigger] counts[i] == eviction_model::remaining(
            groups,
            gone,
            rows[i].pubkey,
        ).len()
}

impl<'a> SelectorWorkspace<'a> {
    spec fn gone(&self) -> Set<ExplicitOwner> {
        self.victims@.to_set()
    }

    spec fn ok(&self) -> bool {
        &&& self.snapshot.parts_ok()
        &&& ordered::sorted(self.incoming@)
        &&& ordered::lists(self.selected@, self.gone())
        &&& counts_ok(
            self.projected_refcounts@,
            self.snapshot.pubkey_index@,
            self.snapshot.groups(),
            self.gone(),
        )
        &&& ordered::lists(
            self.freed_pubkeys@,
            eviction_model::freed(self.snapshot.groups(), self.gone(), self.incoming@.to_set()),
        )
    }

    /// The same selection problem.
    spec fn same_problem(&self, other: &Self) -> bool {
        &&& self.snapshot == other.snapshot
        &&& self.incoming == other.incoming
        &&& self.tier == other.tier
    }

    fn start(
        snapshot: &'a EvictionPlanningSnapshot,
        incoming: &'a [Pubkey],
        tier: EvictionTier,
        stats: &mut SelectorStats,
    ) -> (r: Self)
        requires
            snapshot.parts_ok(),
            ordered::sorted(incoming@),
        ensures
            *final(stats) == old(stats).after_work(
                eviction_model::owner_edges(
                    snapshot.groups(),
                    ordered::in_order(owner_index::physical(snapshot.groups())),
                ),
                SelectionWork::none(),
            ),
            r.ok(),
            r.snapshot == snapshot,
            r.incoming == incoming,
            r.tier == tier,
            r.victims@ =~= Seq::<ExplicitOwner>::empty(),
    {
        let ghost none = Seq::<ExplicitOwner>::empty().to_set();
        let ghost pubkeys = row_pubkeys(snapshot.pubkey_index@);
        let mut projected_refcounts: Vec<usize> = Vec::new();
        let mut i: usize = 0;
        while i < snapshot.pubkey_index.len()
            invariant
                snapshot.parts_ok(),
                none =~= Set::<ExplicitOwner>::empty(),
                0 <= i <= snapshot.pubkey_index@.len(),
                pubkeys == row_pubkeys(snapshot.pubkey_index@),
                *stats == old(stats).after_work(
                    eviction_model::owner_edges(snapshot.groups(), pubkeys.take(i as int)),
                    SelectionWork::none(),
                ),
                projected_refcounts@.len() == i,
                forall|j: int|
                    0 <= j < i ==> #[trigger] projected_refcounts@[j] == eviction_model::remaining(
                        snapshot.groups(),
                        none,
                        snapshot.pubkey_index@[j].pubkey,
                    ).len(),
            decreases snapshot.pubkey_index@.len() - i,
        {
            let row = &snapshot.pubkey_index[i];
            proof {
                ordered::lemma_sorted_no_duplicates(row.owners@);
                assert(eviction_model::remaining(snapshot.groups(), none, row.pubkey)
                    =~= owner_index::owners_of(snapshot.groups(), row.pubkey));
                assert(pubkeys.take(i + 1).drop_last() =~= pubkeys.take(i as int));
            }
            stats.initial_edges = stats.initial_edges.saturating_add(row.owners.len() as u64);
            projected_refcounts.push(row.refcount);
            i = i + 1;
        }
        proof {
            assert(pubkeys.take(i as int) =~= pubkeys);
            ordered::lemma_in_order(pubkeys, owner_index::physical(snapshot.groups()));
        }
        let r = SelectorWorkspace {
            snapshot,
            incoming,
            tier,
            projected_refcounts,
            selected: Vec::new(),
            victims: Vec::new(),
            freed_pubkeys: Vec::new(),
        };
        proof {
            assert(r.selected@.to_set() =~= r.gone());
            assert(r.gone() =~= none);
            let f = eviction_model::freed(snapshot.groups(), r.gone(), incoming@.to_set());
            assert(r.freed_pubkeys@.to_set() =~= f) by {
                assert forall|pk: Pubkey| !f.contains(pk) by {
                    owner_index::lemma_physical_owner(snapshot.groups(), pk);
                    if f.contains(pk) {
                        assert(owner_index::owners_of(snapshot.groups(), pk) =~= Set::empty());
                    }
                }
            }
        }
        r
    }

    proof fn lemma_row(&self, i: int)
        requires
            self.snapshot.parts_ok(),
            0 <= i < self.snapshot.pubkey_index@.len(),
        ensures
            owner_index::physical(self.snapshot.groups()).contains(
                self.snapshot.pubkey_index@[i].pubkey,
            ),
            owner_index::owners_of(
                self.snapshot.groups(),
                self.snapshot.pubkey_index@[i].pubkey,
            ).finite(),
    {
        let rows = self.snapshot.pubkey_index@;
        assert(row_pubkeys(rows).to_set().contains(row_pubkeys(rows)[i]));
        ordered::lemma_sorted_no_duplicates(rows[i].owners@);
    }

    /// Whether letting `owner` go would free an address by itself.
    fn frees_alone(&self, owner: &ExplicitOwner) -> (r: bool)
        requires
            self.ok(),
            self.snapshot.groups().dom().contains(*owner),
            !self.gone().contains(*owner),
        ensures
            r == eviction_model::frees_alone(
                self.snapshot.groups(),
                self.gone(),
                self.incoming@.to_set(),
                *owner,
            ),
    {
        let ghost groups = self.snapshot.groups();
        let ghost gone = self.gone();
        match self.snapshot.owner_record(owner) {
            None => false,
            Some(record) => {
                let mut i: usize = 0;
                while i < record.pubkeys.len()
                    invariant
                        self.ok(),
                        groups == self.snapshot.groups(),
                        gone == self.gone(),
                        groups.dom().contains(*owner),
                        !gone.contains(*owner),
                        record.pubkeys@ == groups[*owner],
                        0 <= i <= record.pubkeys@.len(),
                        forall|j: int|
                            0 <= j < i ==> self.incoming@.to_set().contains(
                                #[trigger] record.pubkeys@[j],
                            ) || !(eviction_model::remaining(groups, gone, record.pubkeys@[j])
                                =~= set![*owner]),
                    decreases record.pubkeys@.len() - i,
                {
                    let key: Pubkey = record.pubkeys[i];
                    proof {
                        assert(groups[*owner].contains(key));
                        assert(owner_index::physical(groups).contains(key));
                        assert(eviction_model::remaining(groups, gone, key).contains(*owner));
                    }
                    match self.snapshot.row(&key) {
                        Some(row) => {
                            let ghost left = eviction_model::remaining(groups, gone, key);
                            proof {
                                self.lemma_row(row as int);
                                assert(self.projected_refcounts@[row as int] == left.len());
                                if left.len() == 1 {
                                    assert(left.remove(*owner).len() == 0);
                                    assert(left.remove(*owner) =~= Set::empty());
                                    assert(left =~= set![*owner]);
                                }
                                if left =~= set![*owner] {
                                    assert(left.len() == 1);
                                }
                            }
                            if !ordered::has(self.incoming, &key) && self.projected_refcounts[row]
                                == 1 {
                                return true;
                            }
                        },
                        None => {},
                    }
                    i = i + 1;
                }
                proof {
                    if eviction_model::frees_alone(groups, gone, self.incoming@.to_set(), *owner) {
                        let pk = choose|pk: Pubkey|
                            !self.incoming@.to_set().contains(pk)
                                && #[trigger] eviction_model::remaining(groups, gone, pk)
                                =~= set![*owner];
                        assert(eviction_model::remaining(groups, gone, pk).contains(*owner));
                        assert(record.pubkeys@.contains(pk));
                        let j = choose|j: int|
                            0 <= j < record.pubkeys@.len() && record.pubkeys@[j] == pk;
                        assert(self.incoming@.to_set().contains(record.pubkeys@[j]) || !(
                        eviction_model::remaining(groups, gone, record.pubkeys@[j])
                            =~= set![*owner]));
                    }
                }
                false
            },
        }
    }

    /// Lets `owner` go.
    #[verifier::rlimit(40)]
    fn select_owner(&mut self, owner: &ExplicitOwner, stats: &mut SelectorStats)
        requires
            old(self).ok(),
            old(self).snapshot.groups().dom().contains(*owner),
            !old(self).gone().contains(*owner),
        ensures
            *final(stats) == old(stats).after_work(
                0,
                SelectionWork {
                    updates: old(self).snapshot.groups()[*owner].len(),
                    ..SelectionWork::none()
                },
            ),
            final(self).ok(),
            final(self).same_problem(old(self)),
            final(self).victims@ == old(self).victims@.push(*owner),
    {
        let ghost groups = self.snapshot.groups();
        let ghost gone = self.gone();
        let ghost next = gone.insert(*owner);
        let ghost incoming = self.incoming@.to_set();
        let _ = ordered::add_key(&mut self.selected, *owner);
        let ghost rows = self.snapshot.pubkey_index@;
        let ghost freed0 = eviction_model::freed(groups, gone, incoming);
        let ghost freed1 = eviction_model::freed(groups, next, incoming);
        match self.snapshot.owner_record(owner) {
            None => {},
            Some(record) => {
                let mut i: usize = 0;
                proof {
                    assert(record.pubkeys@.take(0).to_set() =~= Set::<Pubkey>::empty());
                    assert(freed0 =~= freed0.union(Set::<Pubkey>::empty().intersect(freed1)));
                }
                while i < record.pubkeys.len()
                    invariant
                        self.same_problem(old(self)),
                        self.snapshot.parts_ok(),
                        ordered::sorted(self.incoming@),
                        *stats == old(stats).after_work(
                            0,
                            SelectionWork { updates: i as nat, ..SelectionWork::none() },
                        ),
                        self.victims@ == old(self).victims@,
                        gone == old(self).gone(),
                        next == gone.insert(*owner),
                        !gone.contains(*owner),
                        ordered::lists(self.selected@, next),
                        groups == self.snapshot.groups(),
                        rows == self.snapshot.pubkey_index@,
                        incoming == self.incoming@.to_set(),
                        freed0 == eviction_model::freed(groups, gone, incoming),
                        freed1 == eviction_model::freed(groups, next, incoming),
                        groups.dom().contains(*owner),
                        record.pubkeys@ == groups[*owner],
                        ordered::sorted(record.pubkeys@),
                        0 <= i <= record.pubkeys@.len(),
                        self.projected_refcounts@.len() == rows.len(),
                        forall|r: int|
                            0 <= r < rows.len() ==> #[trigger] self.projected_refcounts@[r]
                                == eviction_model::remaining(
                                groups,
                                if record.pubkeys@.take(i as int).to_set().contains(
                                    rows[r].pubkey,
                                ) {
                                    next
                                } else {
                                    gone
                                },
                                rows[r].pubkey,
                            ).len(),
                        ordered::lists(
                            self.freed_pubkeys@,
                            freed0.union(
                                record.pubkeys@.take(i as int).to_set().intersect(freed1),
                            ),
                        ),
                    decreases record.pubkeys@.len() - i,
                {
                    let key: Pubkey = record.pubkeys[i];
                    let ghost done = record.pubkeys@.take(i as int).to_set();
                    proof {
                        ordered::lemma_take_step(record.pubkeys@, i as int);
                        assert(groups[*owner].contains(key));
                        assert(owner_index::physical(groups).contains(key));
                        assert(!done.contains(key)) by {
                            if done.contains(key) {
                                let p = choose|p: int|
                                    0 <= p < i && record.pubkeys@.take(i as int)[p] == key;
                                assert(record.pubkeys@[p].rank() < record.pubkeys@[i as int].rank());
                            }
                        }
                    }
                    match self.snapshot.row(&key) {
                        None => {},
                        Some(row) => {
                            let ghost left = eviction_model::remaining(groups, gone, key);
                            let ghost counts = self.projected_refcounts@;
                            proof {
                                self.lemma_row(row as int);
                                assert(left.contains(*owner));
                                assert(eviction_model::remaining(groups, next, key)
                                    =~= left.remove(*owner));
                                assert(counts[row as int] == left.len());
                                assert(left.len() > 0);
                            }
                            let count: usize = self.projected_refcounts[row] - 1;
                            self.projected_refcounts.set(row, count);
                            stats.incremental_refcount_updates =
                                stats.incremental_refcount_updates.saturating_add(1);
                            proof {
                                assert forall|r: int|
                                    0 <= r < rows.len() implies #[trigger] self.projected_refcounts@[r]
                                    == eviction_model::remaining(
                                    groups,
                                    if done.insert(key).contains(rows[r].pubkey) {
                                        next
                                    } else {
                                        gone
                                    },
                                    rows[r].pubkey,
                                ).len() by {
                                    assert(counts[r] == eviction_model::remaining(
                                        groups,
                                        if done.contains(rows[r].pubkey) {
                                            next
                                        } else {
                                            gone
                                        },
                                        rows[r].pubkey,
                                    ).len());
                                    if r != row as int {
                                        let pks = row_pubkeys(rows);
                                        assert(pks[r] == rows[r].pubkey);
                                        assert(pks[row as int] == key);
                                        if r < row {
                                            assert(pks[r].rank() < pks[row as int].rank());
                                        } else {
                                            assert(pks[row as int].rank() < pks[r].rank());
                                        }
                                    }
                                }
                                lemma_freed_iff(groups, next, incoming, key);
                            }
                            if count == 0 && !ordered::has(self.incoming, &key) {
                                let _ = ordered::add_key(&mut self.freed_pubkeys, key);
                            }
                        },
                    }
                    i = i + 1;
                }
                proof {
                    assert(record.pubkeys@.take(i as int) =~= record.pubkeys@);
                }
            },
        }
        self.victims.push(*owner);
        proof {
            assert(self.victims@.to_set() =~= next) by {
                let v = self.victims@;
                let v0 = old(self).victims@;
                assert(v.take(v0.len() as int) =~= v0);
                ordered::lemma_take_step(v, v0.len() as int);
                assert(v.take(v.len() as int) =~= v);
            }
            assert(counts_ok(self.projected_refcounts@, rows, groups, next)) by {
                assert forall|r: int| 0 <= r < rows.len() implies #[trigger] self.projected_refcounts@[r]
                    == eviction_model::remaining(groups, next, rows[r].pubkey).len() by {
                    if !groups[*owner].contains(rows[r].pubkey) {
                        assert(eviction_model::remaining(groups, next, rows[r].pubkey)
                            =~= eviction_model::remaining(groups, gone, rows[r].pubkey));
                    }
                }
            }
            assert(freed0.union(groups[*owner].to_set().intersect(freed1)) =~= freed1) by {
                assert forall|pk: Pubkey| freed1.contains(pk) implies freed0.contains(pk)
                    || groups[*owner].to_set().contains(pk) by {
                    if !groups[*owner].contains(pk) {
                        assert forall|o: ExplicitOwner| owner_index::owners_of(groups, pk).contains(
                            o,
                        ) implies gone.contains(o) by {
                            assert(next.contains(o));
                        }
                    }
                }
                assert forall|pk: Pubkey| freed0.contains(pk) implies freed1.contains(pk) by {
                    assert forall|o: ExplicitOwner| owner_index::owners_of(groups, pk).contains(
                        o,
                    ) implies next.contains(o) by {
                        assert(gone.contains(o));
                    }
                }
            }
        }
    }
}

proof fn lemma_freed_iff(
    groups: Groups,
    gone: Set<ExplicitOwner>,
    incoming: Set<Pubkey>,
    key: Pubkey,
)
    requires
        owner_index::physical(groups).contains(key),
        owner_index::owners_of(groups, key).finite(),
    ensures
        eviction_model::freed(groups, gone, incoming).contains(key) == (!incoming.contains(key)
            && eviction_model::remaining(groups, gone, key).len() == 0),
{
    let left = eviction_model::remaining(groups, gone, key);
    if left.len() == 0 {
        assert(left =~= Set::empty());
        assert forall|o: ExplicitOwner| owner_index::owners_of(groups, key).contains(o) implies
            gone.contains(o) by {
            if !gone.contains(o) {
                assert(left.contains(o));
            }
        }
    } else {
        let o = left.choose();
        assert(left.contains(o));
    }
}

fn highest_priority(keys: &[EvictionKey]) -> (r: u8)
    ensures
        r == eviction_model::top_priority(keys@),
{
    let mut top: u8 = 0;
    let mut i: usize = 0;
    while i < keys.len()
        invariant
            0 <= i <= keys@.len(),
            top == eviction_model::top_priority(keys@.take(i as int)),
        decreases keys@.len() - i,
    {
        proof {
            assert(keys@.take(i + 1).drop_last() =~= keys@.take(i as int));
        }
        if keys[i].priority > top {
            top = keys[i].priority;
        }
        i = i + 1;
    }
    proof {
        assert(keys@.take(i as int) =~= keys@);
    }
    top
}

fn precedes_lexically(a: &[EvictionKey], b: &[EvictionKey]) -> (r: bool)
    ensures
        r == eviction_model::lex_before(a@, b@),
{
    let mut i: usize = 0;
    while i < a.len() && i < b.len()
        invariant
            0 <= i <= a@.len(),
            i <= b@.len(),
            a@.take(i as int) == b@.take(i as int),
        decreases a@.len() - i,
    {
        if !a[i].same(&b[i]) {
            let before: bool = a[i].precedes(&b[i]);
            proof {
                if before {
                    assert(a@.take(i as int) == b@.take(i as int));
                } else {
                    if a@[i as int].rank() == b@[i as int].rank() {
                        EvictionKey::rank_injective(a@[i as int], b@[i as int]);
                    }
                    lemma_not_lex_before(a@, b@, i as int);
                }
            }
            return before;
        }
        proof {
            assert(a@.take(i + 1) =~= a@.take(i as int).push(a@[i as int]));
            assert(b@.take(i + 1) =~= b@.take(i as int).push(b@[i as int]));
        }
        i = i + 1;
    }
    proof {
        if i < b@.len() {
            assert(i == a@.len());
            assert(a@.take(i as int) == b@.take(i as int));
        } else {
            lemma_not_lex_before(a@, b@, i as int);
        }
    }
    i < b.len()
}

proof fn lemma_not_lex_before(a: Seq<EvictionKey>, b: Seq<EvictionKey>, i: int)
    requires
        0 <= i <= a.len(),
        i <= b.len(),
        a.take(i) == b.take(i),
        i < b.len() ==> i < a.len() && a[i].rank() > b[i].rank(),
    ensures
        !eviction_model::lex_before(a, b),
{
    if eviction_model::lex_before(a, b) {
        let j = choose|j: int|
            #![trigger a.take(j)]
            0 <= j <= a.len() && j < b.len() && a.take(j) == b.take(j) && (j == a.len()
                || a[j].rank() < b[j].rank());
        if j < i {
            assert(a.take(i)[j] == a[j]);
            assert(b.take(i)[j] == b[j]);
        } else if i < j {
            assert(a.take(j)[i] == a[i]);
            assert(b.take(j)[i] == b[i]);
        }
    }
}

/// Whether package `a` comes before package `b`.
fn compare_joint_packages(a: &[EvictionKey], b: &[EvictionKey]) -> (r: bool)
    ensures
        r == eviction_model::list_before(a@, b@),
{
    let top_a: u8 = highest_priority(a);
    let top_b: u8 = highest_priority(b);
    if top_a != top_b {
        top_a < top_b
    } else {
        precedes_lexically(a, b)
    }
}

impl<'a> SelectorWorkspace<'a> {
    /// The first candidate that frees an address alone.
    fn first_alone(&self, candidates: &[EvictionKey], stats: &mut SelectorStats) -> (r: Option<
        ExplicitOwner,
    >)
        requires
            self.ok(),
            ordered::lists(
                candidates@,
                eviction_model::keys_of(
                    self.snapshot.stamps(),
                    eviction_model::evictable(self.snapshot.groups(), self.tier),
                ),
            ),
        ensures
            match r {
                Some(owner) => eviction_model::is_first_alone(
                    self.snapshot.groups(),
                    self.snapshot.stamps(),
                    self.tier,
                    self.gone(),
                    self.incoming@.to_set(),
                    owner,
                ),
                None => !eviction_model::some_alone(
                    self.snapshot.groups(),
                    self.tier,
                    self.gone(),
                    self.incoming@.to_set(),
                ),
            },
            *final(stats) == old(stats).after_work(
                0,
                SelectionWork {
                    evaluations: eviction_model::looked_at(
                        candidates@,
                        self.snapshot.groups(),
                        self.gone(),
                        self.incoming@.to_set(),
                    ),
                    ..SelectionWork::none()
                },
            ),
    {
        let ghost groups = self.snapshot.groups();
        let ghost stamps = self.snapshot.stamps();
        let ghost open = eviction_model::evictable(groups, self.tier);
        let ghost gone = self.gone();
        let ghost incoming = self.incoming@.to_set();
        let ghost total = eviction_model::looked_at(candidates@, groups, gone, incoming);
        let ghost mut looked: nat = 0;
        let mut i: usize = 0;
        assert(candidates@.skip(0) =~= candidates@);
        while i < candidates.len()
            invariant
                self.ok(),
                total == eviction_model::looked_at(candidates@, groups, gone, incoming),
                total == looked + eviction_model::looked_at(
                    candidates@.skip(i as int),
                    groups,
                    gone,
                    incoming,
                ),
                *stats == old(stats).after_work(
                    0,
                    SelectionWork { evaluations: looked, ..SelectionWork::none() },
                ),
                groups == self.snapshot.groups(),
                stamps == self.snapshot.stamps(),
                open == eviction_model::evictable(groups, self.tier),
                gone == self.gone(),
                incoming == self.incoming@.to_set(),
                ordered::lists(candidates@, eviction_model::keys_of(stamps, open)),
                0 <= i <= candidates@.len(),
                forall|j: int|
                    0 <= j < i ==> gone.contains((#[trigger] candidates@[j]).owner)
                        || !eviction_model::frees_alone(
                        groups,
                        gone,
                        incoming,
                        candidates@[j].owner,
                    ),
            decreases candidates@.len() - i,
        {
            let owner: ExplicitOwner = candidates[i].owner;
            proof {
                assert(candidates@.to_set().contains(candidates@[i as int]));
                assert(open.contains(owner));
                assert(gone.contains(owner) == self.selected@.to_set().contains(owner));
            }
            proof {
                assert(candidates@.skip(i as int).drop_first() =~= candidates@.skip(i + 1));
                assert(candidates@.skip(i as int)[0] == candidates@[i as int]);
            }
            if ordered::has(self.selected.as_slice(), &owner) {
                i = i + 1;
                continue;
            }
            stats.candidate_evaluations = stats.candidate_evaluations.saturating_add(1);
            proof {
                looked = looked + 1;
            }
            if self.frees_alone(&owner) {
                proof {
                    assert forall|o: ExplicitOwner| #[trigger]
                        open.contains(o) && !gone.contains(o) && eviction_model::frees_alone(
                            groups,
                            gone,
                            incoming,
                            o,
                        ) implies eviction_model::key_of(stamps, owner).rank()
                        <= eviction_model::key_of(stamps, o).rank() by {
                        let k = eviction_model::key_of(stamps, o);
                        assert(eviction_model::keys_of(stamps, open).contains(k));
                        assert(candidates@.to_set().contains(k));
                        let j = choose|j: int| 0 <= j < candidates@.len() && candidates@[j] == k;
                        assert(j >= i) by {
                            if j < i {
                                assert(gone.contains(candidates@[j].owner)
                                    || !eviction_model::frees_alone(
                                    groups,
                                    gone,
                                    incoming,
                                    candidates@[j].owner,
                                ));
                            }
                        }
                        if i < j {
                            assert(candidates@[i as int].rank() < candidates@[j].rank());
                        }
                    }
                }
                return Some(owner);
            }
            i = i + 1;
        }
        proof {
            if eviction_model::some_alone(groups, self.tier, gone, incoming) {
                let o = choose|o: ExplicitOwner|
                    open.contains(o) && !gone.contains(o)
                        && #[trigger] eviction_model::frees_alone(groups, gone, incoming, o);
                let k = eviction_model::key_of(stamps, o);
                assert(eviction_model::keys_of(stamps, open).contains(k));
                assert(candidates@.to_set().contains(k));
                let j = choose|j: int| 0 <= j < candidates@.len() && candidates@[j] == k;
                assert(gone.contains(candidates@[j].owner) || !eviction_model::frees_alone(
                    groups,
                    gone,
                    incoming,
                    candidates@[j].owner,
                ));
            }
        }
        None
    }

    /// The owners of a row that the tier lets go and that are still there.
    fn open_remaining(&self, row: usize) -> (r: Vec<EvictionKey>)
        requires
            self.ok(),
            row < self.snapshot.pubkey_index@.len(),
        ensures
            ordered::lists(
                r@,
                eviction_model::keys_of(
                    self.snapshot.stamps(),
                    eviction_model::remaining(
                        self.snapshot.groups(),
                        self.gone(),
                        self.snapshot.pubkey_index@[row as int].pubkey,
                    ).intersect(
                        eviction_model::evictable(self.snapshot.groups(), self.tier),
                    ),
                ),
            ),
    {
        let ghost groups = self.snapshot.groups();
        let ghost stamps = self.snapshot.stamps();
        let ghost gone = self.gone();
        let ghost open = eviction_model::evictable(groups, self.tier);
        let owners = &self.snapshot.pubkey_index[row].owners;
        let ghost pk = self.snapshot.pubkey_index@[row as int].pubkey;
        let ghost left = eviction_model::remaining(groups, gone, pk).intersect(open);
        let mut out: Vec<EvictionKey> = Vec::new();
        let mut i: usize = 0;
        while i < owners.len()
            invariant
                self.ok(),
                groups == self.snapshot.groups(),
                stamps == self.snapshot.stamps(),
                gone == self.gone(),
                open == eviction_model::evictable(groups, self.tier),
                left == eviction_model::remaining(groups, gone, pk).intersect(open),
                ordered::lists(owners@, owner_index::owners_of(groups, pk)),
                0 <= i <= owners@.len(),
                ordered::sorted(out@),
                out@.to_set() =~= within(
                    eviction_model::keys_of(stamps, left),
                    owners@.take(i as int).to_set(),
                ),
            decreases owners@.len() - i,
        {
            let owner: ExplicitOwner = owners[i];
            let ghost before = out@.to_set();
            proof {
                ordered::lemma_take_step(owners@, i as int);
                assert(owners@.to_set().contains(owner));
                assert(gone.contains(owner) == self.selected@.to_set().contains(owner));
            }
            if tier_opens(self.tier, owner.consumer) && !ordered::has(
                self.selected.as_slice(),
                &owner,
            ) {
                match self.snapshot.last_touch(&owner) {
                    Some(last_touch) => {
                        let key = EvictionKey {
                            priority: consumer_eviction_priority(owner.consumer),
                            last_touch,
                            owner,
                        };
                        proof {
                            assert(key == eviction_model::key_of(stamps, owner));
                            assert(left.contains(owner));
                            assert(eviction_model::keys_of(stamps, left).contains(key));
                        }
                        let _ = ordered::add_key(&mut out, key);
                    },
                    None => {},
                }
            }
            proof {
                let step = within(
                    eviction_model::keys_of(stamps, left),
                    owners@.take(i + 1).to_set(),
                );
                assert forall|k: EvictionKey| out@.to_set().contains(k) == step.contains(k) by {
                    if eviction_model::keys_of(stamps, left).contains(k) && k.owner == owner {
                        assert(k == eviction_model::key_of(stamps, owner));
                    }
                }
                assert(out@.to_set() =~= step);
            }
            i = i + 1;
        }
        proof {
            assert(owners@.take(i as int) =~= owners@);
            let all = eviction_model::keys_of(stamps, left);
            assert forall|k: EvictionKey| within(all, owners@.to_set()).contains(k)
                == all.contains(k) by {
                if all.contains(k) {
                    assert(owner_index::owners_of(groups, pk).contains(k.owner));
                }
            }
            assert(within(all, owners@.to_set()) =~= all);
        }
        out
    }

    /// The first package, in eviction order.
    #[verifier::rlimit(40)]
    fn first_package(&self, stats: &mut SelectorStats) -> (r: Option<Vec<EvictionKey>>)
        requires
            self.ok(),
        ensures
            *final(stats) == old(stats).after_work(
                0,
                SelectionWork {
                    packages: eviction_model::packaged(
                        self.snapshot.groups(),
                        self.tier,
                        self.gone(),
                        self.incoming@.to_set(),
                    ).len(),
                    ..SelectionWork::none()
                },
            ),
            match r {
                Some(keys) => exists|p: Set<ExplicitOwner>|
                    #[trigger] eviction_model::is_first_package(
                        self.snapshot.groups(),
                        self.snapshot.stamps(),
                        self.tier,
                        self.gone(),
                        self.incoming@.to_set(),
                        p,
                    ) && ordered::lists(keys@, eviction_model::keys_of(self.snapshot.stamps(), p)),
                None => !eviction_model::some_package(
                    self.snapshot.groups(),
                    self.tier,
                    self.gone(),
                    self.incoming@.to_set(),
                ),
            },
    {
        let ghost groups = self.snapshot.groups();
        let ghost stamps = self.snapshot.stamps();
        let ghost gone = self.gone();
        let ghost open = eviction_model::evictable(groups, self.tier);
        let ghost incoming = self.incoming@.to_set();
        let ghost rows = self.snapshot.pubkey_index@;
        let ghost pubkeys = row_pubkeys(rows);
        let ghost whole = eviction_model::packaged(groups, self.tier, gone, incoming);
        let ghost mut seen: Set<Pubkey> = Set::empty();
        let mut best: Option<Vec<EvictionKey>> = None;
        let ghost mut best_set: Set<ExplicitOwner> = Set::empty();
        let mut i: usize = 0;
        proof {
            assert(pubkeys.take(0).to_set().intersect(whole) =~= seen);
        }
        while i < self.snapshot.pubkey_index.len()
            invariant
                self.ok(),
                pubkeys == row_pubkeys(rows),
                whole == eviction_model::packaged(groups, self.tier, gone, incoming),
                seen =~= pubkeys.take(i as int).to_set().intersect(whole),
                seen.finite(),
                *stats == old(stats).after_work(
                    0,
                    SelectionWork { packages: seen.len(), ..SelectionWork::none() },
                ),
                groups == self.snapshot.groups(),
                stamps == self.snapshot.stamps(),
                gone == self.gone(),
                open == eviction_model::evictable(groups, self.tier),
                incoming == self.incoming@.to_set(),
                rows == self.snapshot.pubkey_index@,
                0 <= i <= rows.len(),
                best is Some ==> {
                    &&& eviction_model::is_package(groups, self.tier, gone, incoming, best_set)
                    &&& ordered::lists(best->0@, eviction_model::keys_of(stamps, best_set))
                },
                forall|j: int|
                    0 <= j < i ==> row_settled(
                        groups,
                        stamps,
                        self.tier,
                        gone,
                        incoming,
                        (#[trigger] rows[j]).pubkey,
                        best is Some,
                        best_set,
                    ),
            decreases rows.len() - i,
        {
            let pubkey: Pubkey = self.snapshot.pubkey_index[i].pubkey;
            let ghost left = eviction_model::remaining(groups, gone, pubkey);
            proof {
                self.lemma_row(i as int);
                assert(self.projected_refcounts@[i as int] == left.len());
                if left.len() == 0 {
                    assert(left =~= Set::empty());
                }
                ordered::lemma_take_step(pubkeys, i as int);
                assert(pubkeys[i as int] == pubkey);
                assert(!seen.contains(pubkey)) by {
                    ordered::lemma_sorted_no_duplicates(pubkeys);
                    if pubkeys.take(i as int).contains(pubkey) {
                        let j = choose|j: int|
                            0 <= j < i && pubkeys.take(i as int)[j] == pubkey;
                        assert(pubkeys[j] == pubkeys[i as int]);
                    }
                }
                assert(pubkeys.take(i + 1).to_set().intersect(whole)
                    =~= if whole.contains(pubkey) {
                    seen.insert(pubkey)
                } else {
                    seen
                });
            }
            if !ordered::has(self.incoming, &pubkey) && self.projected_refcounts[i] != 0 {
                let keys = self.open_remaining(i);
                let ghost part = left.intersect(open);
                proof {
                    vstd::set_lib::lemma_len_subset(part, left);
                    eviction_model::lemma_by_eviction(stamps, part);
                    eviction_model::lemma_listed_owners(stamps, part, keys@);
                    let names = eviction_model::owners_in(keys@);
                    names.unique_seq_to_set();
                    assert(keys@.len() == part.len());
                    if part.len() == left.len() {
                        vstd::set_lib::lemma_subset_equality(part, left);
                    }
                    if left.subset_of(open) {
                        assert(part =~= left);
                    }
                }
                if keys.len() == self.projected_refcounts[i] {
                    stats.package_evaluations = stats.package_evaluations.saturating_add(1);
                    proof {
                        assert(whole.contains(pubkey));
                        seen = seen.insert(pubkey);
                        assert(left != Set::<ExplicitOwner>::empty());
                        assert(eviction_model::is_package(groups, self.tier, gone, incoming, left));
                        ordered::lemma_in_order(keys@, eviction_model::keys_of(stamps, left));
                        eviction_model::lemma_lex_irreflexive(keys@);
                    }
                    let better: bool = match &best {
                        None => true,
                        Some(old_keys) => {
                            proof {
                                ordered::lemma_in_order(
                                    old_keys@,
                                    eviction_model::keys_of(stamps, best_set),
                                );
                            }
                            compare_joint_packages(keys.as_slice(), old_keys.as_slice())
                        },
                    };
                    if better {
                        proof {
                            assert forall|j: int| 0 <= j < i implies row_settled(
                                groups,
                                stamps,
                                self.tier,
                                gone,
                                incoming,
                                (#[trigger] rows[j]).pubkey,
                                true,
                                left,
                            ) by {
                                let q = eviction_model::remaining(groups, gone, rows[j].pubkey);
                                assert(row_settled(
                                    groups,
                                    stamps,
                                    self.tier,
                                    gone,
                                    incoming,
                                    rows[j].pubkey,
                                    best is Some,
                                    best_set,
                                ));
                                if best is Some && eviction_model::package_before(stamps, q, left) {
                                    eviction_model::lemma_package_transitive(
                                        stamps,
                                        q,
                                        left,
                                        best_set,
                                    );
                                }
                            }
                            best_set = left;
                        }
                        best = Some(keys);
                    }
                    proof {
                        assert(row_settled(
                            groups,
                            stamps,
                            self.tier,
                            gone,
                            incoming,
                            pubkey,
                            best is Some,
                            best_set,
                        ));
                    }
                } else {
                    proof {
                        assert(!left.subset_of(open));
                    }
                }
            }
            i = i + 1;
        }
        proof {
            assert(pubkeys.take(i as int) =~= pubkeys);
            assert(seen =~= whole);
        }
        proof {
            assert forall|p: Set<ExplicitOwner>| #[trigger]
                eviction_model::is_package(groups, self.tier, gone, incoming, p) implies best
                is Some && !eviction_model::package_before(stamps, p, best_set) by {
                let pk = choose|pk: Pubkey|
                    !incoming.contains(pk) && #[trigger] eviction_model::remaining(
                        groups,
                        gone,
                        pk,
                    ) =~= p;
                assert(!(p =~= Set::<ExplicitOwner>::empty()));
                let o = choose|o: ExplicitOwner| p.contains(o);
                assert(eviction_model::remaining(groups, gone, pk).contains(o));
                assert(groups.dom().contains(o) && groups[o].contains(pk));
                assert(owner_index::physical(groups).contains(pk));
                assert(row_pubkeys(rows).to_set().contains(pk));
                let j = choose|j: int| 0 <= j < rows.len() && row_pubkeys(rows)[j] == pk;
                assert(rows[j].pubkey == pk);
            }
            if best is Some {
                assert(eviction_model::is_first_package(
                    groups,
                    stamps,
                    self.tier,
                    gone,
                    incoming,
                    best_set,
                ));
            }
        }
        best
    }
}

/// The package that holds `pubkey`, if there is one, does not come before the best one.
spec fn row_settled(
    groups: Groups,
    stamps: Stamps,
    tier: EvictionTier,
    gone: Set<ExplicitOwner>,
    incoming: Set<Pubkey>,
    pubkey: Pubkey,
    found: bool,
    best: Set<ExplicitOwner>,
) -> bool {
    let left = eviction_model::remaining(groups, gone, pubkey);
    !incoming.contains(pubkey) && !(left =~= Set::<ExplicitOwner>::empty()) && left.subset_of(
        eviction_model::evictable(groups, tier),
    ) ==> found && !eviction_model::package_before(stamps, left, best)
}

/// Picks victims until enough addresses are free; `None` when no round is left.
#[verifier::rlimit(40)]
fn execute_victim_selection(
    snapshot: &EvictionPlanningSnapshot,
    incoming: &[Pubkey],
    required_to_free: usize,
    opened_through: EvictionTier,
    stats: &mut SelectorStats,
) -> (r: Option<(Vec<ExplicitOwner>, Vec<Pubkey>)>)
    requires
        snapshot.parts_ok(),
        ordered::sorted(incoming@),
    ensures
        *final(stats) == old(stats).after_selection(
            snapshot.groups(),
            snapshot.stamps(),
            opened_through,
            incoming@.to_set(),
            required_to_free as int,
        ),
        match r {
            Some((victims, physical_freed)) => {
                &&& eviction_model::selection(
                    snapshot.groups(),
                    snapshot.stamps(),
                    opened_through,
                    incoming@.to_set(),
                    required_to_free as int,
                    Seq::empty(),
                ) == Some(victims@)
                &&& ordered::lists(
                    physical_freed@,
                    eviction_model::freed(
                        snapshot.groups(),
                        victims@.to_set(),
                        incoming@.to_set(),
                    ),
                )
            },
            None => eviction_model::selection(
                snapshot.groups(),
                snapshot.stamps(),
                opened_through,
                incoming@.to_set(),
                required_to_free as int,
                Seq::empty(),
            ) is None,
        },
{
    let ghost groups = snapshot.groups();
    let ghost stamps = snapshot.stamps();
    let ghost wanted = incoming@.to_set();
    let ghost open = eviction_model::evictable(groups, opened_through);
    let ghost goal = eviction_model::selection(
        groups,
        stamps,
        opened_through,
        wanted,
        required_to_free as int,
        Seq::empty(),
    );
    let ghost edges = eviction_model::owner_edges(
        groups,
        ordered::in_order(owner_index::physical(groups)),
    );
    let ghost work = eviction_model::selection_work(
        groups,
        stamps,
        opened_through,
        wanted,
        required_to_free as int,
        Seq::empty(),
    );
    let ghost mut done = SelectionWork::none();
    let candidates = build_sorted_candidates(snapshot, opened_through);
    let mut workspace = SelectorWorkspace::start(snapshot, incoming, opened_through, stats);
    proof {
        ordered::lemma_in_order(candidates@, eviction_model::keys_of(stamps, open));
    }
    while workspace.freed_pubkeys.len() < required_to_free
        invariant
            *stats == old(stats).after_work(edges, done),
            edges == eviction_model::owner_edges(
                groups,
                ordered::in_order(owner_index::physical(groups)),
            ),
            work == eviction_model::selection_work(
                groups,
                stamps,
                opened_through,
                wanted,
                required_to_free as int,
                Seq::empty(),
            ),
            work == done.plus(
                eviction_model::selection_work(
                    groups,
                    stamps,
                    opened_through,
                    wanted,
                    required_to_free as int,
                    workspace.victims@,
                ),
            ),
            candidates@ == eviction_model::by_eviction(stamps, open),
            workspace.ok(),
            workspace.snapshot == snapshot,
            workspace.incoming == incoming,
            workspace.tier == opened_through,
            groups == snapshot.groups(),
            stamps == snapshot.stamps(),
            wanted == incoming@.to_set(),
            open == eviction_model::evictable(groups, opened_through),
            groups.dom().finite(),
            ordered::lists(candidates@, eviction_model::keys_of(stamps, open)),
            goal == eviction_model::selection(
                groups,
                stamps,
                opened_through,
                wanted,
                required_to_free as int,
                Seq::empty(),
            ),
            goal == eviction_model::selection(
                groups,
                stamps,
                opened_through,
                wanted,
                required_to_free as int,
                workspace.victims@,
            ),
        decreases open.difference(workspace.victims@.to_set()).len(),
    {
        let ghost victims = workspace.victims@;
        let ghost gone = workspace.gone();
        proof {
            ordered::lemma_sorted_no_duplicates(workspace.freed_pubkeys@);
        }
        let ghost step = eviction_model::round_work(groups, stamps, opened_through, gone, wanted);
        let ghost before = done;
        match workspace.first_alone(candidates.as_slice(), stats) {
            Some(owner) => {
                proof {
                    assert(eviction_model::some_alone(groups, opened_through, gone, wanted));
                    eviction_model::lemma_round_progress(
                        groups,
                        stamps,
                        opened_through,
                        victims,
                        wanted,
                    );
                    let chosen = choose|o: ExplicitOwner|
                        eviction_model::is_first_alone(
                            groups,
                            stamps,
                            opened_through,
                            gone,
                            wanted,
                            o,
                        );
                    eviction_model::lemma_first_alone_unique(
                        groups,
                        stamps,
                        opened_through,
                        gone,
                        wanted,
                        owner,
                        chosen,
                    );
                    assert(victims.push(owner) =~= victims + eviction_model::round(
                        groups,
                        stamps,
                        opened_through,
                        gone,
                        wanted,
                    ));
                    assert(seq![owner].drop_last() =~= Seq::empty());
                    reveal_with_fuel(eviction_model::edges, 2);
                    done = before.plus(step);
                }
                workspace.select_owner(&owner, stats);
            },
            None => {
                match workspace.first_package(stats) {
                    None => {
                        assert(work == before.plus(step));
                        return None;
                    },
                    Some(package) => {
                        let ghost round = eviction_model::round(
                            groups,
                            stamps,
                            opened_through,
                            gone,
                            wanted,
                        );
                        proof {
                            let p = choose|p: Set<ExplicitOwner>|
                                #[trigger] eviction_model::is_first_package(
                                    groups,
                                    stamps,
                                    opened_through,
                                    gone,
                                    wanted,
                                    p,
                                ) && ordered::lists(
                                    package@,
                                    eviction_model::keys_of(stamps, p),
                                );
                            let chosen = choose|q: Set<ExplicitOwner>|
                                eviction_model::is_first_package(
                                    groups,
                                    stamps,
                                    opened_through,
                                    gone,
                                    wanted,
                                    q,
                                );
                            eviction_model::lemma_first_package_unique(
                                groups,
                                stamps,
                                opened_through,
                                gone,
                                wanted,
                                p,
                                chosen,
                            );
                            ordered::lemma_in_order(package@, eviction_model::keys_of(stamps, p));
                            assert(eviction_model::is_package(
                                groups,
                                opened_through,
                                gone,
                                wanted,
                                p,
                            ));
                            assert(round == eviction_model::owners_in(package@));
                            eviction_model::lemma_round(
                                groups,
                                stamps,
                                opened_through,
                                gone,
                                wanted,
                            );
                            eviction_model::lemma_round_progress(
                                groups,
                                stamps,
                                opened_through,
                                victims,
                                wanted,
                            );
                        }
                        let mut i: usize = 0;
                        while i < package.len()
                            invariant
                                workspace.ok(),
                                workspace.snapshot == snapshot,
                                workspace.incoming == incoming,
                                workspace.tier == opened_through,
                                groups == snapshot.groups(),
                                open == eviction_model::evictable(groups, opened_through),
                                round == eviction_model::owners_in(package@),
                                round.no_duplicates(),
                                gone == victims.to_set(),
                                forall|o: ExplicitOwner| #[trigger]
                                    round.contains(o) ==> open.contains(o) && !gone.contains(o),
                                0 <= i <= package@.len(),
                                workspace.victims@ =~= victims + round.take(i as int),
                                *stats == old(stats).after_work(
                                    edges,
                                    before.plus(
                                        SelectionWork {
                                            updates: eviction_model::edges(
                                                groups,
                                                round.take(i as int),
                                                Set::empty(),
                                            ),
                                            ..step
                                        },
                                    ),
                                ),
                            decreases package@.len() - i,
                        {
                            let owner: ExplicitOwner = package[i].owner;
                            proof {
                                assert(round[i as int] == owner);
                                assert(round.contains(owner));
                                if workspace.gone().contains(owner) {
                                    let j = choose|j: int|
                                        0 <= j < workspace.victims@.len() && workspace.victims@[j]
                                            == owner;
                                    if j < victims.len() {
                                        assert(victims[j] == owner);
                                        assert(gone.contains(owner));
                                    } else {
                                        assert(round[j - victims.len()] == owner);
                                    }
                                }
                            }
                            proof {
                                assert(round.take(i + 1).drop_last() =~= round.take(i as int));
                            }
                            workspace.select_owner(&owner, stats);
                            i = i + 1;
                        }
                        proof {
                            assert(round.take(i as int) =~= round);
                            done = before.plus(step);
                            assert(workspace.victims@ =~= victims + round);
                        }
                    },
                }
            },
        }
    }
    proof {
        ordered::lemma_sorted_no_duplicates(workspace.freed_pubkeys@);
    }
    Some((workspace.victims, workspace.freed_pubkeys))
}

/// What victim selection answers for a request.
pub open spec fn victim_outcome(
    groups: Groups,
    stamps: Stamps,
    physical_len: usize,
    owner: ExplicitOwner,
    keys: Seq<Pubkey>,
    cap: usize,
    result: VictimSelectionResult,
) -> bool {
    let added = added_count(groups, keys);
    let projected = physical_len + added;
    let required = projected - cap;
    if keys.len() == 0 || groups.dom().contains(owner) {
        result is RejectedInvalidInput
    } else if projected > usize::MAX {
        result is InternalInvariantViolation
    } else if projected <= cap {
        result == (VictimSelectionResult::NoEvictionNeeded {
            incoming_physical_added: added as usize,
            projected_final_len: projected as usize,
        })
    } else {
        match opened_tier(groups, keys.to_set(), owner.consumer, required) {
            Some(tier) => {
                &&& result matches VictimSelectionResult::Planned(plan)
                &&& eviction_model::selection(
                    groups,
                    stamps,
                    tier,
                    keys.to_set(),
                    required,
                    Seq::empty(),
                ) == Some(plan.victims@)
                &&& ordered::lists(
                    plan.physical_freed@,
                    eviction_model::freed(groups, plan.victims@.to_set(), keys.to_set()),
                )
                &&& plan.incoming_physical_added == added
                &&& plan.projected_final_len == projected - plan.physical_freed@.len()
                &&& plan.opened_through == tier
            },
            None => result == (VictimSelectionResult::RejectedProtected {
                incoming_physical_added: added as usize,
                required_to_free: required as usize,
            }),
        }
    }
}

/// What victim selection answers for a smaller cap.
pub open spec fn shrink_outcome(
    groups: Groups,
    stamps: Stamps,
    physical_len: usize,
    target_cap: usize,
    result: CapShrinkSelectionResult,
) -> bool {
    let required = physical_len - target_cap;
    if physical_len <= target_cap {
        result is NoShrinkNeeded
    } else {
        match opened_tier(groups, Set::empty(), ExplicitConsumer::Wallet, required) {
            Some(tier) => {
                &&& result matches CapShrinkSelectionResult::Planned(plan)
                &&& eviction_model::selection(
                    groups,
                    stamps,
                    tier,
                    Set::empty(),
                    required,
                    Seq::empty(),
                ) == Some(plan.victims@)
                &&& ordered::lists(
                    plan.physical_freed@,
                    eviction_model::freed(groups, plan.victims@.to_set(), Set::empty()),
                )
                &&& plan.projected_final_len == physical_len - plan.physical_freed@.len()
                &&& plan.opened_through == tier
            },
            None => result == (CapShrinkSelectionResult::RejectedProtected {
                required_to_free: required as usize,
            }),
        }
    }
}

proof fn lemma_plan_found(
    groups: Groups,
    stamps: Stamps,
    tier: EvictionTier,
    incoming: Set<Pubkey>,
    consumer: ExplicitConsumer,
    required: int,
)
    requires
        groups.dom().finite(),
        opened_tier(groups, incoming, consumer, required) == Some(tier),
    ensures
        eviction_model::selection(groups, stamps, tier, incoming, required, Seq::empty()) is Some,
{
    eviction_model::selection_succeeds_when_feasible(
        groups,
        stamps,
        tier,
        incoming,
        required,
        Seq::empty(),
    );
}

/// Names the groups to let go for an incoming group.
pub fn select_eviction_victims(
    snapshot: &EvictionPlanningSnapshot,
    request: VictimSelectionRequest,
) -> (r: VictimSelectionResult)
    requires
        snapshot.wf(),
    ensures
        victim_outcome(
            snapshot.groups(),
            snapshot.stamps(),
            snapshot.counted_len(),
            request.incoming_owner,
            request.incoming_pubkeys@,
            request.cap,
            r,
        ),
{
    let mut stats = SelectorStats::default();
    select_eviction_victims_with_stats(snapshot, request, &mut stats)
}

/// Names the groups to let go for an incoming group and counts the work; where none are to go,
/// or none may, there is none.
pub fn select_eviction_victims_with_stats(
    snapshot: &EvictionPlanningSnapshot,
    request: VictimSelectionRequest,
    stats: &mut SelectorStats,
) -> (r: VictimSelectionResult)
    requires
        snapshot.wf(),
    ensures
        victim_outcome(
            snapshot.groups(),
            snapshot.stamps(),
            snapshot.counted_len(),
            request.incoming_owner,
            request.incoming_pubkeys@,
            request.cap,
            r,
        ),
        *final(stats) == match r {
            VictimSelectionResult::Planned(plan) => old(stats).after_selection(
                snapshot.groups(),
                snapshot.stamps(),
                plan.opened_through,
                request.incoming_pubkeys@.to_set(),
                snapshot.counted_len() + plan.incoming_physical_added - request.cap,
            ),
            _ => *old(stats),
        },
{
    let incoming = ordered::normalize(request.incoming_pubkeys.as_slice());
    let ghost consumer = request.incoming_owner.consumer;
    let feasibility = snapshot.analyze_tier_feasibility(request);
    match feasibility {
        TierFeasibilityResult::NoEvictionNeeded {
            incoming_physical_added,
            projected_final_len,
        } => VictimSelectionResult::NoEvictionNeeded {
            incoming_physical_added,
            projected_final_len,
        },
        TierFeasibilityResult::RejectedInvalidInput => VictimSelectionResult::RejectedInvalidInput,
        TierFeasibilityResult::InternalInvariantViolation => {
            VictimSelectionResult::InternalInvariantViolation
        },
        TierFeasibilityResult::RejectedProtected {
            incoming_physical_added,
            required_to_free,
            ..
        } => VictimSelectionResult::RejectedProtected { incoming_physical_added, required_to_free },
        TierFeasibilityResult::Feasible {
            incoming_physical_added,
            required_to_free,
            opened_through,
            ..
        } => {
            proof {
                snapshot.lemma_parts();
                lemma_plan_found(
                    snapshot.groups(),
                    snapshot.stamps(),
                    opened_through,
                    incoming@.to_set(),
                    consumer,
                    required_to_free as int,
                );
            }
            run_victim_selection(
                snapshot,
                incoming.as_slice(),
                incoming_physical_added,
                required_to_free,
                opened_through,
                stats,
            )
        },
    }
}

fn run_victim_selection(
    snapshot: &EvictionPlanningSnapshot,
    incoming: &[Pubkey],
    incoming_physical_added: usize,
    required_to_free: usize,
    opened_through: EvictionTier,
    stats: &mut SelectorStats,
) -> (r: VictimSelectionResult)
    requires
        snapshot.wf(),
        ordered::sorted(incoming@),
        snapshot.counted_len() + incoming_physical_added <= usize::MAX,
        eviction_model::selection(
            snapshot.groups(),
            snapshot.stamps(),
            opened_through,
            incoming@.to_set(),
            required_to_free as int,
            Seq::empty(),
        ) is Some,
    ensures
        r matches VictimSelectionResult::Planned(plan) && {
            &&& eviction_model::selection(
                snapshot.groups(),
                snapshot.stamps(),
                opened_through,
                incoming@.to_set(),
                required_to_free as int,
                Seq::empty(),
            ) == Some(plan.victims@)
            &&& ordered::lists(
                plan.physical_freed@,
                eviction_model::freed(
                    snapshot.groups(),
                    plan.victims@.to_set(),
                    incoming@.to_set(),
                ),
            )
            &&& plan.incoming_physical_added == incoming_physical_added
            &&& plan.projected_final_len == snapshot.counted_len() + incoming_physical_added
                - plan.physical_freed@.len()
            &&& plan.opened_through == opened_through
        },
        *final(stats) == old(stats).after_selection(
            snapshot.groups(),
            snapshot.stamps(),
            opened_through,
            incoming@.to_set(),
            required_to_free as int,
        ),
{
    match execute_victim_selection(snapshot, incoming, required_to_free, opened_through, stats) {
        None => VictimSelectionResult::InternalInvariantViolation,
        Some((victims, physical_freed)) => {
            proof {
                snapshot.lemma_parts();
                eviction_model::lemma_freed_finite(
                    snapshot.groups(),
                    victims@.to_set(),
                    incoming@.to_set(),
                );
                ordered::lemma_sorted_no_duplicates(physical_freed@);
            }
            let projected_final_len: usize = snapshot.physical_len + incoming_physical_added
                - physical_freed.len();
            VictimSelectionResult::Planned(
                VictimSelectionPlan {
                    victims,
                    physical_freed,
                    incoming_physical_added,
                    projected_final_len,
                    opened_through,
                },
            )
        },
    }
}

/// Names the groups to let go for a smaller cap.
pub fn select_cap_shrink_victims(snapshot: &EvictionPlanningSnapshot, target_cap: usize) -> (r:
    CapShrinkSelectionResult)
    requires
        snapshot.wf(),
    ensures
        shrink_outcome(snapshot.groups(), snapshot.stamps(), snapshot.counted_len(), target_cap, r),
{
    let mut stats = SelectorStats::default();
    select_cap_shrink_victims_with_stats(snapshot, target_cap, &mut stats)
}

/// Names the groups to let go for a smaller cap and counts the work; where none are to go, or
/// none may, there is none.
pub fn select_cap_shrink_victims_with_stats(
    snapshot: &EvictionPlanningSnapshot,
    target_cap: usize,
    stats: &mut SelectorStats,
) -> (r: CapShrinkSelectionResult)
    requires
        snapshot.wf(),
    ensures
        shrink_outcome(snapshot.groups(), snapshot.stamps(), snapshot.counted_len(), target_cap, r),
        *final(stats) == match r {
            CapShrinkSelectionResult::Planned(plan) => old(stats).after_selection(
                snapshot.groups(),
                snapshot.stamps(),
                plan.opened_through,
                Set::empty(),
                snapshot.counted_len() - target_cap,
            ),
            _ => *old(stats),
        },
{
    let physical_len: usize = snapshot.physical_len;
    if physical_len <= target_cap {
        return CapShrinkSelectionResult::NoShrinkNeeded;
    }
    let required_to_free: usize = physical_len - target_cap;
    let none: Vec<Pubkey> = Vec::new();
    proof {
        assert(none@.to_set() =~= Set::empty());
    }
    match snapshot.open_tier(none.as_slice(), ExplicitConsumer::Wallet, required_to_free) {
        None => CapShrinkSelectionResult::RejectedProtected { required_to_free },
        Some((opened_through, _)) => {
            proof {
                snapshot.lemma_parts();
                lemma_plan_found(
                    snapshot.groups(),
                    snapshot.stamps(),
                    opened_through,
                    Set::empty(),
                    ExplicitConsumer::Wallet,
                    required_to_free as int,
                );
            }
            match execute_victim_selection(
                snapshot,
                none.as_slice(),
                required_to_free,
                opened_through,
                stats,
            ) {
                None => CapShrinkSelectionResult::InternalInvariantViolation,
                Some((victims, physical_freed)) => {
                    proof {
                        eviction_model::lemma_freed_finite(
                            snapshot.groups(),
                            victims@.to_set(),
                            Set::empty(),
                        );
                        ordered::lemma_sorted_no_duplicates(physical_freed@);
                    }
                    let projected_final_len: usize = physical_len - physical_freed.len();
                    CapShrinkSelectionResult::Planned(
                        CapShrinkSelectionPlan {
                            victims,
                            physical_freed,
                            projected_final_len,
                            opened_through,
                        },
                    )
                },
            }
        },
    }
}

/// A plan makes enough room: once its victims left and the group arrived, the number of tracked
/// addresses is the projected one and within the cap.
pub proof fn plan_fits_cap(
    groups: Groups,
    stamps: Stamps,
    physical_len: usize,
    owner: ExplicitOwner,
    keys: Seq<Pubkey>,
    cap: usize,
    plan: VictimSelectionPlan,
)
    requires
        groups.dom().finite(),
        physical_len == owner_index::physical(groups).len(),
        victim_outcome(
            groups,
            stamps,
            physical_len,
            owner,
            keys,
            cap,
            VictimSelectionResult::Planned(plan),
        ),
    ensures
        plan.projected_final_len <= cap,
        owner_index::physical(
            groups.remove_keys(plan.victims@.to_set()).insert(
                owner,
                keys,
            ),
        ).len() == plan.projected_final_len,
        !groups.dom().contains(owner),
        plan.victims@.no_duplicates(),
        plan.victims@.to_set().subset_of(groups.dom()),
{
    let required = physical_len + added_count(groups, keys) - cap;
    let tier = plan.opened_through;
    eviction_model::selection_succeeds_when_feasible(
        groups,
        stamps,
        tier,
        keys.to_set(),
        required,
        Seq::empty(),
    );
    ordered::lemma_sorted_no_duplicates(plan.physical_freed@);
    eviction_model::lemma_physical_replaced(
        groups,
        plan.victims@.to_set(),
        owner,
        keys,
    );
    assert forall|o: ExplicitOwner| plan.victims@.to_set().contains(o) implies
        groups.dom().contains(o) by {
        assert(plan.victims@.contains(o));
        assert(eviction_model::evictable(groups, tier).contains(o));
    }
}

/// Victims are never wallet groups and never better protected than the newcomer.
pub proof fn victims_never_outrank_newcomer(
    groups: Groups,
    stamps: Stamps,
    physical_len: usize,
    owner: ExplicitOwner,
    keys: Seq<Pubkey>,
    cap: usize,
    plan: VictimSelectionPlan,
    victim: ExplicitOwner,
)
    requires
        groups.dom().finite(),
        victim_outcome(
            groups,
            stamps,
            physical_len,
            owner,
            keys,
            cap,
            VictimSelectionResult::Planned(plan),
        ),
        plan.victims@.contains(victim),
    ensures
        victim.consumer != ExplicitConsumer::Wallet,
        victim.consumer.position() >= owner.consumer.position(),
        plan.opened_through.opens(victim.consumer),
{
    let required = physical_len + added_count(groups, keys) - cap;
    eviction_model::selection_succeeds_when_feasible(
        groups,
        stamps,
        plan.opened_through,
        keys.to_set(),
        required,
        Seq::empty(),
    );
    assert(eviction_model::evictable(groups, plan.opened_through).contains(victim));
}

/// A more protected group is touched only when the tiers below it cannot free enough.
pub proof fn opened_tier_is_lowest(
    groups: Groups,
    incoming: Set<Pubkey>,
    consumer: ExplicitConsumer,
    required: int,
    tier: EvictionTier,
    lower: EvictionTier,
)
    requires
        opened_tier(groups, incoming, consumer, required) == Some(tier),
        lower.level() < tier.level(),
    ensures
        freeable(groups, lower, incoming).len() < required,
        freeable(groups, tier, incoming).len() >= required,
        tier.allowed_for(consumer),
{
}

/// No address that the newcomer wants, and none that a remaining owner holds, is freed.
pub proof fn freed_is_unwanted_and_unowned(
    groups: Groups,
    gone: Set<ExplicitOwner>,
    incoming: Set<Pubkey>,
    pubkey: Pubkey,
)
    requires
        eviction_model::freed(groups, gone, incoming).contains(pubkey),
    ensures
        !incoming.contains(pubkey),
        !owner_index::physical(groups.remove_keys(gone)).contains(pubkey),
{
    eviction_model::lemma_physical_without(groups, gone);
    assert(eviction_model::freed(groups, gone, Set::empty()).contains(pubkey));
}

/// A cap-shrink plan brings the number of tracked addresses within the target.
pub proof fn shrink_plan_fits_target(
    groups: Groups,
    stamps: Stamps,
    physical_len: usize,
    target_cap: usize,
    plan: CapShrinkSelectionPlan,
)
    requires
        groups.dom().finite(),
        physical_len == owner_index::physical(groups).len(),
        shrink_outcome(
            groups,
            stamps,
            physical_len,
            target_cap,
            CapShrinkSelectionResult::Planned(plan),
        ),
    ensures
        plan.projected_final_len <= target_cap,
        owner_index::physical(groups.remove_keys(plan.victims@.to_set())).len()
            == plan.projected_final_len,
        plan.victims@.no_duplicates(),
        forall|o: ExplicitOwner| #[trigger]
            plan.victims@.contains(o) ==> groups.dom().contains(o) && o.consumer
                != ExplicitConsumer::Wallet,
{
    eviction_model::selection_succeeds_when_feasible(
        groups,
        stamps,
        plan.opened_through,
        Set::empty(),
        physical_len - target_cap,
        Seq::empty(),
    );
    ordered::lemma_sorted_no_duplicates(plan.physical_freed@);
    eviction_model::lemma_physical_without_len(groups, plan.victims@.to_set());
    assert forall|o: ExplicitOwner| #[trigger] plan.victims@.contains(o) implies
        groups.dom().contains(o) && o.consumer != ExplicitConsumer::Wallet by {
        assert(eviction_model::evictable(groups, plan.opened_through).contains(o));
    }
}

} // verus!
